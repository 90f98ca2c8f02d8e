use op_heads::dag_walk::heads;
use op_heads::op_heads_store::{
    prune_ancestors,
    resolve_op_heads,
    sort_by_end_time,
    OpHeadResolutionError,
    OpHeads,
};
use op_heads::op_store::{MillisSinceEpoch, OperationId, OperationMetadata, Timestamp, ViewId};
use op_heads::operation::{Operation, OperationLog};

fn ended(millis: i64, tz_offset: i32) -> OperationMetadata {
    OperationMetadata {
        start_time: Timestamp { timestamp: MillisSinceEpoch(0), tz_offset: 0 },
        end_time: Timestamp { timestamp: MillisSinceEpoch(millis), tz_offset },
    }
}

fn id(hex: &str) -> OperationId {
    OperationId::from_hex(hex)
}

fn ids(hex: &[&str]) -> Vec<OperationId> {
    hex.iter().map(|hex| id(hex)).collect()
}

fn operation(hex: &str, parents: &[&str], end: i64) -> Operation {
    Operation::new(id(hex), ViewId::new(vec![]), ids(parents), ended(end, 0))
}

fn log_of(operations: &[Operation]) -> OperationLog {
    let mut log = OperationLog::new();
    for operation in operations {
        log.record(operation.clone());
    }
    log
}

fn ids_of(operations: &[Operation]) -> Vec<OperationId> {
    operations.iter().map(|operation| operation.id().clone()).collect()
}

// 00 <- 01 <- 02 <- 04
//         \<- 03 <-/      05 <- 06
fn history() -> OperationLog {
    log_of(&[
        operation("00", &[], 10),
        operation("01", &["00"], 20),
        operation("02", &["01"], 40),
        operation("03", &["01"], 30),
        operation("04", &["02", "03"], 50),
        operation("05", &[], 5),
        operation("06", &["05"], 45),
    ])
}

#[test]
fn a_log_keeps_one_record_for_each_id() {
    let mut log = OperationLog::new();
    assert_eq!(log.len(), 0);
    log.record(operation("0a", &[], 1));
    log.record(operation("0b", &["0a"], 2));
    log.record(operation("0a", &["0b"], 3));
    assert_eq!(log.len(), 2);
    assert_eq!(log.read_operation(&id("0a")), Some(operation("0a", &[], 1)));
    assert_eq!(log.read_operation(&id("0b")), Some(operation("0b", &["0a"], 2)));
    assert_eq!(log.read_operation(&id("0c")), None);
    assert_eq!(log.position(&id("0b")), Some(1));
    assert_eq!(log.position(&id("0c")), None);
    assert_eq!(log.get(0), &operation("0a", &[], 1));
}

#[test]
fn an_operation_gives_what_it_was_made_of() {
    let op = Operation::new(id("0a"), ViewId::new(vec![1]), ids(&["0b", "0c"]), ended(7, -60));
    assert_eq!(op.id(), &id("0a"));
    assert_eq!(op.view_id(), &ViewId::new(vec![1]));
    assert_eq!(op.parent_ids(), &ids(&["0b", "0c"]));
    assert_eq!(op.metadata(), ended(7, -60));
    assert_eq!(op.clone(), op);
}

#[test]
fn a_parent_is_no_head() {
    let found = heads(&ids(&["02", "01"]), &history()).unwrap();
    assert_eq!(ids_of(&found), ids(&["02"]));
    assert_eq!(found[0], operation("02", &["01"], 40));
}

#[test]
fn an_ancestor_by_several_steps_is_no_head() {
    let found = heads(&ids(&["00", "04"]), &history()).unwrap();
    assert_eq!(ids_of(&found), ids(&["04"]));
}

#[test]
fn siblings_are_both_heads() {
    let found = heads(&ids(&["03", "02"]), &history()).unwrap();
    assert_eq!(ids_of(&found), ids(&["03", "02"]));
}

#[test]
fn unrelated_operations_are_all_heads() {
    let found = heads(&ids(&["06", "04", "01", "05", "03"]), &history()).unwrap();
    assert_eq!(ids_of(&found), ids(&["06", "04"]));
}

#[test]
fn a_head_that_is_named_twice_comes_once() {
    let found = heads(&ids(&["02", "03", "02", "03", "01"]), &history()).unwrap();
    assert_eq!(ids_of(&found), ids(&["02", "03"]));
}

#[test]
fn no_operations_have_no_heads() {
    assert_eq!(heads(&vec![], &history()), Ok(vec![]));
    assert_eq!(heads(&vec![], &OperationLog::new()), Ok(vec![]));
}

#[test]
fn operations_on_a_cycle_are_no_heads() {
    let log = log_of(&[operation("0a", &["0b"], 1), operation("0b", &["0a"], 2)]);
    assert_eq!(heads(&ids(&["0a", "0b"]), &log), Ok(vec![]));
    assert_eq!(heads(&ids(&["0a"]), &log), Ok(vec![]));
}

#[test]
fn the_walk_fails_on_a_start_without_record() {
    assert_eq!(heads(&ids(&["04", "07"]), &history()), Err(id("07")));
}

#[test]
fn the_walk_fails_on_an_ancestor_without_record() {
    let log = log_of(&[
        operation("02", &["01"], 40),
        operation("01", &["00"], 20),
        operation("03", &["01"], 30),
    ]);
    assert_eq!(heads(&ids(&["02", "03"]), &log), Err(id("00")));
}

#[test]
fn the_walk_names_the_first_start_without_record() {
    assert_eq!(heads(&ids(&["04", "0f", "06", "0e"]), &history()), Err(id("0f")));
    let log = log_of(&[operation("0a", &["0b"], 1)]);
    assert_eq!(heads(&ids(&["0a", "0c"]), &log), Err(id("0c")));
}

#[test]
fn the_walk_names_the_first_parent_without_record_of_the_first_record_that_lacks_one() {
    let log = log_of(&[
        operation("0a", &["01"], 1),
        operation("0b", &["0c", "02", "03"], 2),
        operation("0c", &["04"], 3),
        operation("0d", &["05"], 4),
    ]);
    assert_eq!(heads(&ids(&["0c", "0b"]), &log), Err(id("02")));
    assert_eq!(heads(&ids(&["0c", "0d"]), &log), Err(id("04")));
    assert_eq!(heads(&ids(&["0d", "0a"]), &log), Err(id("01")));
    assert_eq!(heads(&ids(&["0d"]), &log), Err(id("05")));
}

#[test]
fn pruning_names_the_ancestors() {
    let (kept, pruned) =
        prune_ancestors(&ids(&["01", "06", "04", "05", "00"]), &history()).unwrap();
    assert_eq!(ids_of(&kept), ids(&["06", "04"]));
    assert_eq!(pruned, ids(&["01", "05", "00"]));
    assert_eq!(prune_ancestors(&ids(&["04", "0f"]), &history()), Err(id("0f")));
}

#[test]
fn sorting_is_by_end_time() {
    let operations = vec![
        operation("0a", &[], 30),
        operation("0b", &[], 10),
        operation("0c", &[], 20),
        operation("0d", &[], -5),
    ];
    let ordered = sort_by_end_time(&operations);
    assert_eq!(ids_of(&ordered), ids(&["0d", "0b", "0c", "0a"]));
    assert_eq!(ordered[0], operation("0d", &[], -5));
}

#[test]
fn sorting_does_not_look_at_the_start_time() {
    let early_start = Operation::new(
        id("0a"),
        ViewId::new(vec![]),
        vec![],
        OperationMetadata {
            start_time: Timestamp { timestamp: MillisSinceEpoch(1), tz_offset: 0 },
            end_time: Timestamp { timestamp: MillisSinceEpoch(9), tz_offset: 0 },
        },
    );
    let late_start = Operation::new(
        id("0b"),
        ViewId::new(vec![]),
        vec![],
        OperationMetadata {
            start_time: Timestamp { timestamp: MillisSinceEpoch(5), tz_offset: 0 },
            end_time: Timestamp { timestamp: MillisSinceEpoch(6), tz_offset: 0 },
        },
    );
    let ordered = sort_by_end_time(&vec![early_start, late_start]);
    assert_eq!(ids_of(&ordered), ids(&["0b", "0a"]));
}

#[test]
fn equal_end_times_go_by_the_time_zone_offset() {
    let operations = vec![
        Operation::new(id("0a"), ViewId::new(vec![]), vec![], ended(10, 120)),
        Operation::new(id("0b"), ViewId::new(vec![]), vec![], ended(10, -60)),
        Operation::new(id("0c"), ViewId::new(vec![]), vec![], ended(9, 600)),
        Operation::new(id("0d"), ViewId::new(vec![]), vec![], ended(10, 0)),
    ];
    assert_eq!(ids_of(&sort_by_end_time(&operations)), ids(&["0c", "0b", "0d", "0a"]));
}

#[test]
fn operations_that_ended_together_keep_their_order() {
    let operations = vec![
        operation("0c", &[], 10),
        operation("0a", &[], 10),
        operation("0d", &[], 5),
        operation("0b", &[], 10),
    ];
    assert_eq!(ids_of(&sort_by_end_time(&operations)), ids(&["0d", "0c", "0a", "0b"]));
}

#[test]
fn sorting_nothing_gives_nothing() {
    assert_eq!(sort_by_end_time(&vec![]), vec![]);
}

#[test]
fn the_order_does_not_depend_on_the_order_of_the_heads() {
    let a = operation("0a", &[], 30);
    let b = operation("0b", &[], 10);
    let c = operation("0c", &[], 20);
    let expected = vec![b.clone(), c.clone(), a.clone()];
    assert_eq!(sort_by_end_time(&vec![a.clone(), b.clone(), c.clone()]), expected);
    assert_eq!(sort_by_end_time(&vec![c.clone(), b.clone(), a.clone()]), expected);
    assert_eq!(sort_by_end_time(&vec![b.clone(), a.clone(), c.clone()]), expected);
    assert_eq!(sort_by_end_time(&expected), expected);
}

#[test]
fn resolving_nothing_is_an_error() {
    assert_eq!(resolve_op_heads(&vec![], &history()), Err(OpHeadResolutionError::NoHeads));
}

#[test]
fn a_single_marked_operation_is_the_head() {
    assert_eq!(
        resolve_op_heads(&ids(&["01"]), &history()),
        Ok((OpHeads::Single(operation("01", &["00"], 20)), vec![]))
    );
}

#[test]
fn a_single_marked_operation_needs_only_its_own_record() {
    let log = log_of(&[operation("04", &["02", "03"], 50)]);
    assert_eq!(
        resolve_op_heads(&ids(&["04"]), &log),
        Ok((OpHeads::Single(operation("04", &["02", "03"], 50)), vec![]))
    );
    assert_eq!(
        resolve_op_heads(&ids(&["02"]), &log),
        Err(OpHeadResolutionError::RecordNotFound(id("02")))
    );
}

#[test]
fn one_head_is_left_after_pruning() {
    assert_eq!(
        resolve_op_heads(&ids(&["01", "04", "03"]), &history()),
        Ok((OpHeads::Single(operation("04", &["02", "03"], 50)), ids(&["01", "03"])))
    );
}

#[test]
fn divergent_heads_come_ordered_by_end_time() {
    assert_eq!(
        resolve_op_heads(&ids(&["04", "00", "06", "03"]), &history()),
        Ok((
            OpHeads::Unresolved {
                op_heads: vec![operation("06", &["05"], 45), operation("04", &["02", "03"], 50)],
            },
            ids(&["00", "03"])
        ))
    );
}

#[test]
fn several_marked_operations_need_the_records_of_their_ancestors() {
    let log = log_of(&[operation("02", &["01"], 40), operation("03", &["01"], 30)]);
    assert_eq!(
        resolve_op_heads(&ids(&["02", "03"]), &log),
        Err(OpHeadResolutionError::RecordNotFound(id("01")))
    );
}

#[test]
fn an_operation_that_is_marked_twice_is_a_single_head() {
    assert_eq!(
        resolve_op_heads(&ids(&["04", "04"]), &history()),
        Ok((OpHeads::Single(operation("04", &["02", "03"], 50)), vec![]))
    );
}
