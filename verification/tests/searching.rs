use skvs::config::DatabaseConfig;
use skvs::error::SkvsError;
use skvs::fts::{FtsIndex, FtsVirtualTable};
use skvs::schema::Value;
use skvs::sql::SqlEngine;
use skvs::state::KvsState;
use skvs::virtual_table::VirtualTableRegistry;

#[test]
fn a_search_finds_the_documents_with_all_words() {
    let mut index = FtsIndex::new();
    index.add_document(1, "The quick brown FOX");
    index.add_document(2, "quick silver");
    index.add_document(3, "brown-quick bear");
    assert_eq!(index.search("quick"), vec![1, 2, 3]);
    assert_eq!(index.search("Quick, brown!"), vec![1, 3]);
    assert_eq!(index.search("fox bear"), Vec::<u64>::new());
    assert_eq!(index.search("the"), Vec::<u64>::new());
    assert_eq!(index.search("of at"), Vec::<u64>::new());
    assert_eq!(index.search(""), Vec::<u64>::new());
    assert_eq!(index.total_docs(), 3);
}

#[test]
fn a_removed_document_is_not_found() {
    let mut index = FtsIndex::new();
    index.add_document(1, "alpha beta");
    index.add_document(2, "beta gamma");
    index.remove_document(1, "alpha beta");
    assert_eq!(index.search("beta"), vec![2]);
    assert_eq!(index.search("alpha"), Vec::<u64>::new());
    assert_eq!(index.total_docs(), 1);
}

#[test]
fn the_terms_of_a_query_come_with_document_lengths() {
    let mut index = FtsIndex::new();
    index.add_document(1, "alpha beta gamma");
    index.add_document(2, "beta");
    assert_eq!(index.ranked_terms("beta alpha nothing"), vec![vec![(1, 3), (2, 1)], vec![(1, 3)]]);
    assert_eq!(index.lengths().clone(), vec![(1, 3), (2, 1)]);
}

#[test]
fn a_full_text_table_keeps_its_index() {
    let mut t = FtsVirtualTable::new("docs", "body");
    t.insert(7, "hello there world");
    assert_eq!(t.search("world hello"), vec![7]);
    t.delete(7, "hello there world");
    assert_eq!(t.search("hello"), Vec::<u64>::new());
}

#[test]
fn fts_match_follows_writes() {
    let mut state = KvsState::new(&[DatabaseConfig { id: 0, name: "default".into() }]);
    let mut run = |sql: &str| SqlEngine::execute(&mut state, 0, sql, &[], None).unwrap().rows;
    run("CREATE VIRTUAL TABLE docs USING fts5(body, title)");
    run("INSERT INTO docs (body, title) VALUES ('apples and pears', 'one'), ('pears alone', 'two')");
    assert_eq!(run("SELECT title FROM docs WHERE fts_match(docs, 'pears')").len(), 2);
    run("UPDATE docs SET body = 'plums' WHERE title = 'two'");
    let rows = run("SELECT title FROM docs WHERE fts_match(docs, 'pears')");
    assert_eq!(rows.len(), 1);
    assert_eq!(rows[0].get("title"), Some(&Value::Text("one".into())));
    run("DELETE FROM docs WHERE title = 'one'");
    assert_eq!(run("SELECT title FROM docs WHERE fts_match(docs, 'pears')").len(), 0);
    assert_eq!(run("SELECT title FROM docs WHERE fts_match(docs, 'plums')").len(), 1);
}

#[test]
fn virtual_tables_are_registered_once() {
    let mut registry: VirtualTableRegistry<u32> = VirtualTableRegistry::new();
    assert!(registry.register("a", 1).is_ok());
    match registry.register("a", 2) {
        Err(SkvsError::Schema(m)) => assert_eq!(m, "Virtual table a already exists"),
        _ => panic!("registered twice"),
    }
    assert_eq!(registry.get("a"), Some(&1));
    assert_eq!(registry.get("b"), None);
    assert_eq!(registry.remove("a"), Some(1));
    assert_eq!(registry.remove("a"), None);
    assert!(registry.register("a", 2).is_ok());
}

#[test]
fn a_document_is_found_once() {
    let mut index = FtsIndex::new();
    index.add_document(1, "tick tick tock tick");
    index.add_document(2, "tock");
    assert_eq!(index.search("tick"), vec![1]);
    assert_eq!(index.search("tock tick tock"), vec![1]);
    let mut t = FtsVirtualTable::new("docs", "body");
    t.insert(7, "echo echo echo");
    t.insert(7, "echo");
    assert_eq!(t.search("echo echo"), vec![7]);
}

#[test]
fn a_query_of_two_parts_finds_what_both_find() {
    let mut index = FtsIndex::new();
    index.add_document(1, "red green");
    index.add_document(2, "green blue");
    index.add_document(3, "red green blue");
    let first = index.search("red");
    let second = index.search("Blue");
    let both = index.search("red Blue");
    assert_eq!(both, vec![3]);
    assert!([1u64, 2, 3].iter().all(|id| both.contains(id) == (first.contains(id) && second.contains(id))));
}

#[test]
fn a_document_leaves_no_trace() {
    let mut index = FtsIndex::new();
    index.add_document(1, "alpha beta");
    let before = (index.search("alpha"), index.search("beta"), index.lengths().clone(), index.total_docs());
    index.add_document(2, "beta gamma");
    index.remove_document(2, "beta gamma");
    let after = (index.search("alpha"), index.search("beta"), index.lengths().clone(), index.total_docs());
    assert_eq!(before, after);
    assert_eq!(index.search("gamma"), Vec::<u64>::new());
}
