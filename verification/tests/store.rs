use std::collections::HashSet;

use itertools::Itertools;
use op_heads::op_store::{MillisSinceEpoch, OperationId, OperationMetadata, Timestamp, ViewId};
use op_heads::operation::Operation;
use op_heads::simple_op_heads_store::{
    InnerSimpleOpHeadsStore,
    SimpleOpHeadsStore,
    LOCK_FILE,
    OP_HEADS_DIR,
};

fn metadata(end: i64) -> OperationMetadata {
    OperationMetadata {
        start_time: Timestamp { timestamp: MillisSinceEpoch(end - 1), tz_offset: 0 },
        end_time: Timestamp { timestamp: MillisSinceEpoch(end), tz_offset: 0 },
    }
}

fn operation(id: &str, parents: &[&str], end: i64) -> Operation {
    Operation::new(
        OperationId::from_hex(id),
        ViewId::new(vec![]),
        parents.iter().map(|parent| OperationId::from_hex(parent)).collect(),
        metadata(end),
    )
}

fn names(entries: &[&str]) -> Vec<String> {
    entries.iter().map(|entry| entry.to_string()).collect()
}

fn read_dir(entries: Vec<String>) -> Vec<String> {
    entries.into_iter().sorted().collect()
}

#[test]
fn test_simple_op_heads_store_migration() {
    let op1 = OperationId::from_hex("012345");
    let op2 = OperationId::from_hex("abcdef");
    let mut ops = HashSet::new();
    ops.insert(op1.clone());
    ops.insert(op2.clone());

    let mut old_store = InnerSimpleOpHeadsStore::new();
    old_store.add_op_head(&op1);
    old_store.add_op_head(&op2);

    assert_eq!(vec!["012345", "abcdef"], read_dir(old_store.entries()));

    let new_store = SimpleOpHeadsStore::load(&mut old_store, None);
    assert_eq!(&ops, &new_store.get_op_heads().into_iter().collect());
    assert_eq!(vec!["simple_op_heads"], read_dir(old_store.entries()));
    assert_eq!(vec!["012345", "abcdef"], read_dir(new_store.entries()));

    // Migration is idempotent
    let new_store = SimpleOpHeadsStore::load(&mut old_store, Some(new_store.store().clone()));
    assert_eq!(&ops, &new_store.get_op_heads().into_iter().collect());
    assert_eq!(vec!["simple_op_heads"], read_dir(old_store.entries()));
    assert_eq!(vec!["012345", "abcdef"], read_dir(new_store.entries()));
}

#[test]
fn migration_leaves_other_entries_where_they_are() {
    let mut dir = InnerSimpleOpHeadsStore::from_entries(names(&["lock", "0a", "notes.txt", "0b"]));
    let store = SimpleOpHeadsStore::load(&mut dir, None);
    assert_eq!(dir.entries(), names(&["lock", "notes.txt", "simple_op_heads"]));
    assert_eq!(store.entries(), names(&["0a", "0b"]));
    assert_eq!(dir.get_op_heads(), vec![]);
}

#[test]
fn migration_leaves_a_marker_that_is_not_in_lowercase() {
    let mut dir = InnerSimpleOpHeadsStore::from_entries(names(&["AB"]));
    let store = SimpleOpHeadsStore::load(&mut dir, None);
    assert_eq!(store.entries(), names(&["ab"]));
    assert_eq!(dir.entries(), names(&["AB", "simple_op_heads"]));
}

#[test]
fn load_takes_the_directory_of_markers_where_it_exists() {
    let mut dir = InnerSimpleOpHeadsStore::from_entries(names(&["simple_op_heads"]));
    let markers = InnerSimpleOpHeadsStore::from_entries(names(&["0b", "lock"]));
    let store = SimpleOpHeadsStore::load(&mut dir, Some(markers));
    assert_eq!(store.entries(), names(&["0b", "lock"]));
    assert_eq!(store.get_op_heads(), vec![OperationId::from_hex("0b")]);
    assert_eq!(dir.entries(), names(&["simple_op_heads"]));
}

#[test]
fn load_moves_the_markers_that_an_earlier_move_left_behind() {
    // 0b was marked in the new place and not yet taken from the old one,
    // and 0c was not yet moved at all.
    let mut dir = InnerSimpleOpHeadsStore::from_entries(names(&["0b", "simple_op_heads", "0c"]));
    let markers = InnerSimpleOpHeadsStore::from_entries(names(&["0a", "0b"]));
    let store = SimpleOpHeadsStore::load(&mut dir, Some(markers));
    assert_eq!(store.entries(), names(&["0a", "0b", "0c"]));
    assert_eq!(dir.entries(), names(&["simple_op_heads"]));

    let store = SimpleOpHeadsStore::load(&mut dir, Some(store.store().clone()));
    assert_eq!(store.entries(), names(&["0a", "0b", "0c"]));
    assert_eq!(dir.entries(), names(&["simple_op_heads"]));
}

#[test]
fn the_names_of_the_layout() {
    assert_eq!(OP_HEADS_DIR, "simple_op_heads");
    assert_eq!(LOCK_FILE, "lock");
    let store = SimpleOpHeadsStore::load(&mut InnerSimpleOpHeadsStore::new(), None);
    assert_eq!(store.name(), "simple_op_heads_store");
}

#[test]
fn init_marks_the_root_operation() {
    let root = OperationId::from_hex("00ff10");
    let (store, op) = SimpleOpHeadsStore::init(root.clone(), ViewId::new(vec![7]), metadata(5));
    assert_eq!(store.entries(), names(&["00ff10"]));
    assert_eq!(store.get_op_heads(), vec![root.clone()]);
    assert_eq!(op.id(), &root);
    assert!(op.parent_ids().is_empty());
    assert_eq!(op.view_id(), &ViewId::new(vec![7]));
    assert_eq!(op.metadata(), metadata(5));

    let (inner, inner_op) =
        InnerSimpleOpHeadsStore::init(root.clone(), ViewId::new(vec![7]), metadata(5));
    assert_eq!(inner.entries(), names(&["00ff10"]));
    assert_eq!(inner_op, op);
}

#[test]
fn add_twice_leaves_one_marker() {
    let mut store = InnerSimpleOpHeadsStore::new();
    let id = OperationId::new(vec![0xab, 0x01]);
    store.add_op_head(&id);
    assert_eq!(store.entries(), names(&["ab01"]));
    store.add_op_head(&id);
    assert_eq!(store.entries(), names(&["ab01"]));
    assert_eq!(store.get_op_heads(), vec![id]);
}

#[test]
fn add_keeps_the_other_markers() {
    let mut store = InnerSimpleOpHeadsStore::from_entries(names(&["01", "lock"]));
    store.add_op_head(&OperationId::from_hex("02"));
    assert_eq!(store.entries(), names(&["01", "lock", "02"]));
}

#[test]
fn remove_of_what_was_never_added_changes_nothing() {
    let mut store = InnerSimpleOpHeadsStore::new();
    store.remove_op_head(&OperationId::from_hex("0a"));
    assert_eq!(store.entries(), names(&[]));
    store.add_op_head(&OperationId::from_hex("0b"));
    store.add_op_head(&OperationId::from_hex("0c"));
    store.remove_op_head(&OperationId::from_hex("0a"));
    assert_eq!(store.entries(), names(&["0b", "0c"]));
}

#[test]
fn remove_takes_one_marker_away() {
    let mut store = InnerSimpleOpHeadsStore::from_entries(names(&["0a", "0b", "0c"]));
    store.remove_op_head(&OperationId::from_hex("0b"));
    assert_eq!(store.entries(), names(&["0a", "0c"]));
    store.remove_op_head(&OperationId::from_hex("0b"));
    assert_eq!(store.entries(), names(&["0a", "0c"]));
    store.remove_op_heads(&vec![OperationId::from_hex("0c"), OperationId::from_hex("0a")]);
    assert_eq!(store.entries(), names(&[]));
}

#[test]
fn remove_goes_by_the_lowercase_name() {
    let mut store = InnerSimpleOpHeadsStore::from_entries(names(&["AB", "cd"]));
    store.remove_op_head(&OperationId::from_hex("AB"));
    store.remove_op_head(&OperationId::from_hex("CD"));
    assert_eq!(store.entries(), names(&["AB"]));
}

#[test]
fn a_listing_gives_each_name_once() {
    let store = InnerSimpleOpHeadsStore::from_entries(names(&["0a", "0b", "0a", "lock", "0b"]));
    assert_eq!(store.entries(), names(&["0a", "0b", "lock"]));
}

#[test]
fn entries_that_are_no_hexadecimal_form_mark_nothing() {
    let store = InnerSimpleOpHeadsStore::from_entries(names(&[
        "lock",
        "0a0b",
        "simple_op_heads",
        "abc",
        "0A0C",
        ".tmp",
        "",
    ]));
    assert_eq!(
        store.get_op_heads(),
        vec![OperationId::from_hex("0a0b"), OperationId::from_hex("0a0c"), OperationId::new(vec![])]
    );
}

#[test]
fn finish_puts_the_new_operation_in_place_of_its_parents() {
    let mut store = SimpleOpHeadsStore::load(
        &mut InnerSimpleOpHeadsStore::new(),
        Some(InnerSimpleOpHeadsStore::from_entries(names(&["0a", "lock", "0b"]))),
    );
    let merge = operation("0c", &["0a", "0b"], 9);
    store.finish(&merge);
    assert_eq!(store.get_op_heads(), vec![OperationId::from_hex("0c")]);
    assert_eq!(store.entries(), names(&["lock", "0c"]));
    store.finish(&merge);
    assert_eq!(store.entries(), names(&["lock", "0c"]));
}

#[test]
fn finish_leaves_a_marker_that_is_not_in_lowercase() {
    let mut store = InnerSimpleOpHeadsStore::from_entries(names(&["0A", "0b"]));
    store.finish(&operation("0c", &["0a", "0b"], 9));
    assert_eq!(store.entries(), names(&["0A", "0c"]));
    assert_eq!(
        store.get_op_heads(),
        vec![OperationId::from_hex("0a"), OperationId::from_hex("0c")]
    );
}

#[test]
fn finish_keeps_heads_that_are_no_parents() {
    let mut store = InnerSimpleOpHeadsStore::from_entries(names(&["0a", "0b"]));
    store.finish(&operation("0c", &["0a", "0d"], 9));
    assert_eq!(store.entries(), names(&["0b", "0c"]));
}

#[test]
fn changes_name_what_to_create_and_what_to_remove() {
    let before = InnerSimpleOpHeadsStore::from_entries(names(&["0a", "lock", "0b", "0c"]));
    let mut after = before.clone();
    after.finish(&operation("0d", &["0c", "0a", "0e"], 9));
    assert_eq!(after.entries(), names(&["lock", "0b", "0d"]));
    assert_eq!(before.changes(&after), (names(&["0d"]), names(&["0a", "0c"])));
    assert_eq!(after.changes(&before), (names(&["0a", "0c"]), names(&["0d"])));
    assert_eq!(before.changes(&before), (names(&[]), names(&[])));
    assert_eq!(
        InnerSimpleOpHeadsStore::new().changes(&before),
        (names(&["0a", "lock", "0b", "0c"]), names(&[]))
    );
}

#[test]
fn the_store_gives_its_inner_store() {
    let (store, _) =
        SimpleOpHeadsStore::init(OperationId::from_hex("0a"), ViewId::new(vec![]), metadata(1));
    assert_eq!(store.store().entries(), names(&["0a"]));
    assert_eq!(InnerSimpleOpHeadsStore::new().changes(store.store()), (names(&["0a"]), names(&[])));
}

#[test]
fn the_store_and_its_inner_store_agree() {
    let mut inner = InnerSimpleOpHeadsStore::new();
    let mut store = SimpleOpHeadsStore::load(&mut InnerSimpleOpHeadsStore::new(), None);
    for id in ["0a", "0b", "0c"] {
        inner.add_op_head(&OperationId::from_hex(id));
        store.add_op_head(&OperationId::from_hex(id));
    }
    inner.remove_op_head(&OperationId::from_hex("0b"));
    store.remove_op_head(&OperationId::from_hex("0b"));
    assert_eq!(inner.entries(), store.entries());
    assert_eq!(inner.get_op_heads(), store.get_op_heads());
    assert_eq!(store.entries(), names(&["0a", "0c"]));
}
