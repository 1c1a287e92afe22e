use skvs::config::{Config, DatabaseConfig, MemoryConfig};
use skvs::schema::Value;
use skvs::sql::SqlEngine;
use skvs::state::KvsState;
use std::collections::BTreeMap;

fn two_databases() -> KvsState {
    KvsState::new(&[
        DatabaseConfig { id: 0, name: "default".into() },
        DatabaseConfig { id: 1, name: "users".into() },
    ])
}

#[test]
fn databases_are_found_by_name() {
    let state = two_databases();
    assert_eq!(state.get_db_id("users"), Some(1));
    assert_eq!(state.get_db_id("default"), Some(0));
    assert_eq!(state.get_db_id("nobody"), None);
}

#[test]
fn a_statement_on_one_database_leaves_the_other_alone() {
    let mut state = two_databases();
    for db in [0u32, 1u32] {
        SqlEngine::execute(&mut state, db, "CREATE TABLE t (a INTEGER)", &[], None).unwrap();
        SqlEngine::execute(&mut state, db, "INSERT INTO t (a) VALUES (1)", &[], None).unwrap();
    }
    SqlEngine::execute(&mut state, 0, "UPDATE t SET a = 2", &[], None).unwrap();
    SqlEngine::execute(&mut state, 0, "CREATE VIEW v AS SELECT a FROM t", &[], None).unwrap();
    let there = SqlEngine::execute(&mut state, 1, "SELECT a FROM t", &[], None).unwrap();
    assert_eq!(there.rows[0].get("a"), Some(&Value::Integer(1)));
    assert_eq!(state.get_view_definition(1, "v"), None);
    SqlEngine::execute(&mut state, 0, "DROP TABLE t", &[], None).unwrap();
    assert!(state.get_schema(1, "t").is_some());
    assert!(state.get_schema(0, "t").is_none());
}

#[test]
fn raw_values_and_tables_of_one_name_do_not_meet() {
    let mut state = two_databases();
    SqlEngine::execute(&mut state, 0, "CREATE TABLE t (a INTEGER)", &[], None).unwrap();
    let spilled = state.put_raw(0, "t", b"k".to_vec(), b"v".to_vec());
    assert!(spilled.is_empty());
    SqlEngine::execute(&mut state, 0, "INSERT INTO t (a) VALUES (1)", &[], None).unwrap();
    SqlEngine::execute(&mut state, 0, "DROP TABLE t", &[], None).unwrap();
    assert_eq!(state.get_raw(0, "t", &b"k".to_vec()), Some(b"v".to_vec()));
    assert_eq!(state.get_raw(1, "t", &b"k".to_vec()), None);
}

#[test]
fn a_raw_value_is_what_was_last_put() {
    let mut state = two_databases();
    state.put_raw(0, "r", vec![1], vec![10]);
    state.put_raw(0, "r", vec![1], vec![11]);
    state.put_raw(0, "r", vec![2], vec![20]);
    assert_eq!(state.get_raw(0, "r", &vec![1]), Some(vec![11]));
    state.remove_raw(0, "r", &vec![1]);
    assert_eq!(state.get_raw(0, "r", &vec![1]), None);
    assert_eq!(state.get_raw(0, "r", &vec![2]), Some(vec![20]));
    state.remove_raw(0, "nothing", &vec![1]);
}

#[test]
fn entries_above_the_limit_are_handed_out() {
    let mut state = KvsState::new_with_config(&[DatabaseConfig { id: 0, name: "default".into() }], 2, "/o");
    assert!(state.put_raw(0, "r", vec![1], vec![10]).is_empty());
    assert!(state.put_raw(0, "r", vec![2], vec![20]).is_empty());
    let spilled = state.put_raw(0, "r", vec![3], vec![30]);
    assert_eq!(spilled.len(), 1);
    let (key, value) = spilled[0].clone();
    assert_eq!(value, vec![key[0] * 10]);
    assert_eq!(state.get_raw(0, "r", &key), None);
    let kept: usize = [1u8, 2, 3].iter().filter(|k| state.get_raw(0, "r", &vec![**k]).is_some()).count();
    assert_eq!(kept, 2);
}

#[test]
fn an_overflow_file_is_named_by_database_table_and_key() {
    let state = KvsState::new_with_config(&[DatabaseConfig { id: 0, name: "default".into() }], 2, "/data/overflow");
    assert_eq!(state.overflow_path(3, "r", &vec![0x0a, 0xff]), vec!["/data/overflow", "3", "r", "0aff"]);
}

#[test]
fn ids_of_a_table_go_upwards() {
    let mut state = two_databases();
    assert_eq!(state.get_next_rowid(0, "t"), 1);
    assert_eq!(state.get_next_rowid(0, "t"), 2);
    assert_eq!(state.get_next_rowid(0, "u"), 1);
    state.set_min_next_rowid(0, "t", 10);
    assert_eq!(state.get_next_rowid(0, "t"), 10);
    state.set_min_next_rowid(0, "t", 5);
    assert_eq!(state.get_next_rowid(0, "t"), 11);
    assert_eq!(state.get_next_rowid(1, "t"), 1);
}

#[test]
fn the_default_configuration() {
    let c = Config::default();
    assert_eq!((c.server.id, c.server.replication_port), (1, 9999));
    assert!(c.peer.is_none());
    assert_eq!(c.storage.base_dir, "/var/lib/skvs");
    assert_eq!((c.wal.flush_interval_secs, c.wal.batch_size), (1, 1000));
    assert_eq!(c.http.port, 3000);
    assert_eq!(c.http.trusted_ips, vec!["127.0.0.1".to_string()]);
    assert_eq!(c.http.secret_key, "change-me");
    assert_eq!(c.databases.len(), 1);
    assert_eq!((c.databases[0].id, c.databases[0].name.as_str()), (0, "default"));
    assert_eq!(c.memory.max_entries_per_table, 0);
    assert_eq!(MemoryConfig::default().max_entries_per_table, 0);
}

#[test]
fn a_raw_value_is_kept_or_handed_out() {
    let mut state = KvsState::new_with_config(&[DatabaseConfig { id: 0, name: "default".into() }], 1, "/o");
    for k in 1u8..=4 {
        let spilled = state.put_raw(0, "r", vec![k], vec![k + 100]);
        let kept = state.get_raw(0, "r", &vec![k]) == Some(vec![k + 100]);
        let out = spilled.contains(&(vec![k], vec![k + 100]));
        assert!(kept != out);
    }
}

#[test]
fn a_value_stays_until_it_is_put_again_or_removed() {
    let mut state = KvsState::new_with_config(&[DatabaseConfig { id: 0, name: "default".into() }], 2, "/o");
    let mut elsewhere: BTreeMap<Vec<u8>, Vec<u8>> = BTreeMap::new();
    for (k, v) in [(1u8, 10u8), (2, 20), (3, 30), (1, 11), (4, 40), (2, 21), (5, 50)] {
        elsewhere.remove(&vec![k]);
        for (key, value) in state.put_raw(0, "r", vec![k], vec![v]) {
            elsewhere.insert(key, value);
        }
    }
    state.remove_raw(0, "r", &vec![3]);
    elsewhere.remove(&vec![3]);
    let found = |k: u8| state.get_raw(0, "r", &vec![k]).or(elsewhere.get(&vec![k]).cloned());
    assert_eq!(found(1), Some(vec![11]));
    assert_eq!(found(2), Some(vec![21]));
    assert_eq!(found(3), None);
    assert_eq!(found(4), Some(vec![40]));
    assert_eq!(found(5), Some(vec![50]));
}
