use std::collections::BTreeSet;

use io_pimdir::sql::{all, all_with};

#[test]
fn no_statement_is_empty_and_every_name_is_unique() {
    let mut names = BTreeSet::new();
    for (name, sql) in all() {
        assert!(!sql.trim().is_empty(), "{name} is empty");
        assert!(names.insert(name), "{name} is declared twice");
    }
}

#[test]
fn the_canonical_statements_come_first() {
    let canonical = vec![("STORE_VERSION", "SELECT version FROM store_meta;")];
    let list = all_with(&canonical);
    assert_eq!(list.len(), all().len() + 1);
    assert_eq!(list[0], canonical[0]);
    assert_eq!(list[1..], all()[..]);
    assert_eq!(all_with(&vec![]), all());
}
