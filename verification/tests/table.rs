use graphnn::nodes::table::Table;
use graphnn::nodes::{HandleRef, Id};

#[test]
fn a_new_table_is_empty() {
    let table: Table<Id, u32> = Table::new();
    assert_eq!(table.len(), 0);
    assert!(!table.contains_key(&Id::from("a")));
    assert_eq!(table.get(&Id::from("a")), None);
    assert_eq!(table.index_of(&Id::from("a")), None);
}

#[test]
fn entries_keep_the_order_in_which_their_keys_came() {
    let mut table: Table<Id, u32> = Table::new();
    assert_eq!(table.insert(Id::from("b"), 2), None);
    assert_eq!(table.insert(Id::from("a"), 1), None);
    assert_eq!(table.insert(Id::from("c"), 3), None);
    assert_eq!(table.len(), 3);
    assert_eq!(table.key_at(0), &Id::from("b"));
    assert_eq!(table.key_at(1), &Id::from("a"));
    assert_eq!(table.key_at(2), &Id::from("c"));
    assert_eq!(*table.value_at(0), 2);
    assert_eq!(*table.value_at(1), 1);
    assert_eq!(*table.value_at(2), 3);
    assert_eq!(table.index_of(&Id::from("a")), Some(1));
    assert_eq!(table.get(&Id::from("c")), Some(&3));
}

#[test]
fn a_key_that_is_listed_keeps_its_place() {
    let mut table: Table<Id, u32> = Table::new();
    table.insert(Id::from("a"), 1);
    table.insert(Id::from("b"), 2);
    table.insert(Id::from("c"), 3);
    assert_eq!(table.insert(Id::from("a"), 10), Some(1));
    assert_eq!(table.len(), 3);
    assert_eq!(table.index_of(&Id::from("a")), Some(0));
    assert_eq!(table.index_of(&Id::from("b")), Some(1));
    assert_eq!(table.index_of(&Id::from("c")), Some(2));
    assert_eq!(table.get(&Id::from("a")), Some(&10));
    assert_eq!(table.get(&Id::from("b")), Some(&2));
    assert_eq!(table.get(&Id::from("c")), Some(&3));
}

#[test]
fn removal_keeps_the_order_of_the_rest() {
    let mut table: Table<Id, u32> = Table::new();
    table.insert(Id::from("a"), 1);
    table.insert(Id::from("b"), 2);
    table.insert(Id::from("c"), 3);
    assert_eq!(table.remove(&Id::from("a")), Some(1));
    assert_eq!(table.remove(&Id::from("a")), None);
    assert_eq!(table.len(), 2);
    assert_eq!(table.key_at(0), &Id::from("b"));
    assert_eq!(table.key_at(1), &Id::from("c"));
    assert_eq!(table.get(&Id::from("b")), Some(&2));
    assert!(!table.contains_key(&Id::from("a")));
}

#[test]
fn handle_refs_are_keys_too() {
    let mut table: Table<HandleRef, u32> = Table::new();
    let first = HandleRef {
        node_id: Id::from("n"),
        handle_id: Id::from("out_1"),
    };
    let second = HandleRef {
        node_id: Id::from("n"),
        handle_id: Id::from("out_2"),
    };
    table.insert(first.clone(), 1);
    table.insert(second.clone(), 2);
    table.insert(first.clone(), 3);
    assert_eq!(table.len(), 2);
    assert_eq!(table.get(&first), Some(&3));
    assert_eq!(table.get(&second), Some(&2));
}
