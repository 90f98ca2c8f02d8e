use op_heads::op_heads_store::{OpHeadResolutionError, OpHeads};
use op_heads::op_store::{MillisSinceEpoch, OperationId, OperationMetadata, Timestamp, ViewId};
use op_heads::operation::{Operation, OperationLog};
use op_heads::resolution::{Answer, HeadResolution, Request, Step};
use op_heads::simple_op_heads_store::{InnerSimpleOpHeadsStore, SimpleOpHeadsStore};

fn ended(millis: i64) -> OperationMetadata {
    OperationMetadata {
        start_time: Timestamp { timestamp: MillisSinceEpoch(0), tz_offset: 0 },
        end_time: Timestamp { timestamp: MillisSinceEpoch(millis), tz_offset: 0 },
    }
}

fn id(hex: &str) -> OperationId {
    OperationId::from_hex(hex)
}

fn ids(hex: &[&str]) -> Vec<OperationId> {
    hex.iter().map(|hex| id(hex)).collect()
}

fn operation(hex: &str, parents: &[&str], end: i64) -> Operation {
    Operation::new(id(hex), ViewId::new(vec![]), ids(parents), ended(end))
}

fn names(entries: &[&str]) -> Vec<String> {
    entries.iter().map(|entry| entry.to_string()).collect()
}

fn log_of(operations: &[Operation]) -> OperationLog {
    let mut log = OperationLog::new();
    for operation in operations {
        log.record(operation.clone());
    }
    log
}

/// A directory of markers and an operation store, both in memory, with a
/// count of what a resolution asked of them.
struct World {
    dir: InnerSimpleOpHeadsStore,
    operations: Vec<Operation>,
    listings: usize,
    locks: usize,
    reads: Vec<OperationId>,
}

fn world(entries: &[&str], operations: &[Operation]) -> World {
    World {
        dir: InnerSimpleOpHeadsStore::from_entries(names(entries)),
        operations: operations.to_vec(),
        listings: 0,
        locks: 0,
        reads: vec![],
    }
}

fn answer(world: &mut World, request: &Request) -> Answer {
    match request {
        Request::ListHeads => {
            world.listings += 1;
            Answer::Listing(world.dir.entries())
        }
        Request::LockAndListHeads => {
            world.locks += 1;
            world.listings += 1;
            Answer::Listing(world.dir.entries())
        }
        Request::ReadOperation(id) => {
            world.reads.push(id.clone());
            match world.operations.iter().find(|operation| operation.id() == id) {
                Some(operation) => Answer::Operation(operation.clone()),
                None => Answer::NoRecord,
            }
        }
    }
}

fn resolve(world: &mut World) -> Result<OpHeads, OpHeadResolutionError> {
    let (mut resolution, mut request) = HeadResolution::new();
    loop {
        let given = answer(world, &request);
        match resolution.step(given) {
            Step::Ask(next, asked) => {
                resolution = next;
                request = asked;
            }
            Step::Done { pruned, outcome } => {
                world.dir.remove_op_heads(&pruned);
                return outcome;
            }
        }
    }
}

fn history() -> Vec<Operation> {
    vec![
        operation("00", &[], 10),
        operation("0a", &["00"], 40),
        operation("0b", &["00"], 20),
        operation("0c", &[], 30),
        operation("0d", &["0a"], 50),
    ]
}

#[test]
fn a_resolution_begins_with_a_listing() {
    let (resolution, request) = HeadResolution::new();
    assert_eq!(request, Request::ListHeads);
    assert!(!resolution.is_locked());
}

#[test]
fn an_empty_directory_has_no_heads() {
    let mut world = world(&[], &history());
    assert_eq!(resolve(&mut world), Err(OpHeadResolutionError::NoHeads));
    assert_eq!((world.listings, world.locks), (1, 0));
    assert!(world.reads.is_empty());
}

#[test]
fn a_directory_with_the_lock_file_only_has_no_heads() {
    let mut world = world(&["lock"], &history());
    assert_eq!(resolve(&mut world), Err(OpHeadResolutionError::NoHeads));
    assert_eq!(world.dir.entries(), names(&["lock"]));
}

#[test]
fn a_single_head_is_resolved_without_the_lock() {
    let mut world = world(&["0a"], &history());
    assert_eq!(resolve(&mut world), Ok(OpHeads::Single(operation("0a", &["00"], 40))));
    assert_eq!((world.listings, world.locks), (1, 0));
    assert_eq!(world.reads, ids(&["0a"]));
    assert_eq!(world.dir.entries(), names(&["0a"]));
}

#[test]
fn a_single_head_without_record_is_an_error() {
    let mut world = world(&["0f"], &history());
    assert_eq!(resolve(&mut world), Err(OpHeadResolutionError::RecordNotFound(id("0f"))));
    assert_eq!(world.locks, 0);
    assert_eq!(world.dir.entries(), names(&["0f"]));
}

#[test]
fn several_heads_are_resolved_under_the_lock() {
    let mut world = world(&["0a", "0b"], &history());
    let (resolution, request) = HeadResolution::new();
    let given = answer(&mut world, &request);
    match resolution.step(given) {
        Step::Ask(next, asked) => {
            assert_eq!(asked, Request::LockAndListHeads);
            assert!(next.is_locked());
        }
        Step::Done { .. } => panic!("done before the lock"),
    }
}

#[test]
fn an_ancestor_is_pruned_and_one_head_is_left() {
    let mut world = world(&["0a", "00"], &history());
    assert_eq!(resolve(&mut world), Ok(OpHeads::Single(operation("0a", &["00"], 40))));
    assert_eq!(world.dir.entries(), names(&["0a"]));
    assert_eq!(world.locks, 1);
    assert_eq!(world.listings, 2);
}

#[test]
fn an_ancestor_is_pruned_and_unrelated_heads_are_left() {
    // 0a is a child of 00, and 0c has nothing to do with either.
    let mut world = world(&["0a", "00", "0c"], &history());
    assert_eq!(
        resolve(&mut world),
        Ok(OpHeads::Unresolved {
            op_heads: vec![operation("0c", &[], 30), operation("0a", &["00"], 40)],
        })
    );
    assert_eq!(world.dir.entries(), names(&["0a", "0c"]));
}

#[test]
fn an_ancestor_by_several_steps_is_pruned() {
    let mut world = world(&["00", "lock", "0d"], &history());
    assert_eq!(resolve(&mut world), Ok(OpHeads::Single(operation("0d", &["0a"], 50))));
    assert_eq!(world.dir.entries(), names(&["lock", "0d"]));
}

#[test]
fn divergent_heads_come_in_the_same_order_every_time() {
    let mut first = world(&["0a", "0b", "0c"], &history());
    let mut second = world(&["0c", "0b", "0a"], &history());
    let expected = Ok(OpHeads::Unresolved {
        op_heads: vec![
            operation("0b", &["00"], 20),
            operation("0c", &[], 30),
            operation("0a", &["00"], 40),
        ],
    });
    assert_eq!(resolve(&mut first), expected);
    assert_eq!(resolve(&mut first), expected);
    assert_eq!(resolve(&mut second), expected);
    assert_eq!(first.dir.entries(), names(&["0a", "0b", "0c"]));
}

#[test]
fn heads_that_another_process_resolved_need_no_merge() {
    let mut world = world(&["0a", "00"], &history());
    let (resolution, request) = HeadResolution::new();
    let given = answer(&mut world, &request);
    let (resolution, request) = match resolution.step(given) {
        Step::Ask(next, asked) => (next, asked),
        Step::Done { .. } => panic!("done before the lock"),
    };
    assert_eq!(request, Request::LockAndListHeads);
    // Before the lock is had, someone else takes the marker of 00 away.
    world.dir.remove_op_head(&id("00"));
    let given = answer(&mut world, &request);
    let (resolution, request) = match resolution.step(given) {
        Step::Ask(next, asked) => (next, asked),
        Step::Done { .. } => panic!("done before the record is read"),
    };
    assert_eq!(request, Request::ReadOperation(id("0a")));
    assert!(resolution.is_locked());
    let given = answer(&mut world, &request);
    match resolution.step(given) {
        Step::Done { pruned, outcome } => {
            assert_eq!(pruned, vec![]);
            assert_eq!(outcome, Ok(OpHeads::Single(operation("0a", &["00"], 40))));
        }
        Step::Ask(..) => panic!("asks on"),
    }
}

#[test]
fn heads_that_are_gone_under_the_lock_are_an_error() {
    let (resolution, _) = HeadResolution::new();
    let resolution = match resolution.step(Answer::Listing(names(&["0a", "0b"]))) {
        Step::Ask(next, _) => next,
        Step::Done { .. } => panic!("done before the lock"),
    };
    match resolution.step(Answer::Listing(names(&["lock"]))) {
        Step::Done { pruned, outcome } => {
            assert_eq!(pruned, vec![]);
            assert_eq!(outcome, Err(OpHeadResolutionError::NoHeads));
        }
        Step::Ask(..) => panic!("asks on"),
    }
}

#[test]
fn a_missing_ancestor_is_an_error_and_no_marker_goes() {
    let operations = vec![operation("0a", &["00"], 40), operation("0b", &["00"], 20)];
    let mut world = world(&["0a", "0b"], &operations);
    assert_eq!(resolve(&mut world), Err(OpHeadResolutionError::RecordNotFound(id("00"))));
    assert_eq!(world.dir.entries(), names(&["0a", "0b"]));
}

#[test]
fn each_record_is_read_once() {
    let mut world = world(&["0d", "0b", "00"], &history());
    assert_eq!(
        resolve(&mut world),
        Ok(OpHeads::Unresolved {
            op_heads: vec![operation("0b", &["00"], 20), operation("0d", &["0a"], 50)],
        })
    );
    let mut reads = world.reads.iter().map(|id| id.hex()).collect::<Vec<_>>();
    reads.sort();
    assert_eq!(reads, names(&["00", "0a", "0b", "0d"]));
}

#[test]
fn an_answer_to_another_request_changes_nothing() {
    let (resolution, _) = HeadResolution::new();
    let resolution = match resolution.step(Answer::NoRecord) {
        Step::Ask(next, asked) => {
            assert_eq!(asked, Request::ListHeads);
            next
        }
        Step::Done { .. } => panic!("done without a listing"),
    };
    let resolution = match resolution.step(Answer::Operation(operation("0a", &[], 1))) {
        Step::Ask(next, asked) => {
            assert_eq!(asked, Request::ListHeads);
            next
        }
        Step::Done { .. } => panic!("done without a listing"),
    };
    let resolution = match resolution.step(Answer::Listing(names(&["0a", "0b"]))) {
        Step::Ask(next, asked) => {
            assert_eq!(asked, Request::LockAndListHeads);
            next
        }
        Step::Done { .. } => panic!("done before the lock"),
    };
    let resolution = match resolution.step(Answer::NoRecord) {
        Step::Ask(next, asked) => {
            assert_eq!(asked, Request::LockAndListHeads);
            next
        }
        Step::Done { .. } => panic!("done without a listing"),
    };
    let (resolution, wanted) = match resolution.step(Answer::Listing(names(&["0a", "0b"]))) {
        Step::Ask(next, Request::ReadOperation(wanted)) => (next, wanted),
        _ => panic!("no record asked for"),
    };
    let other = if wanted == id("0a") { "0b" } else { "0a" };
    let resolution = match resolution.step(Answer::Operation(operation(other, &[], 1))) {
        Step::Ask(next, asked) => {
            assert_eq!(asked, Request::ReadOperation(wanted.clone()));
            next
        }
        Step::Done { .. } => panic!("done with the wrong record"),
    };
    match resolution.step(Answer::Listing(names(&[]))) {
        Step::Ask(_, asked) => assert_eq!(asked, Request::ReadOperation(wanted)),
        Step::Done { .. } => panic!("done with a listing"),
    }
}

#[test]
fn markers_of_one_operation_in_both_cases_are_one_head() {
    let mut world = world(&["0A", "0a"], &history());
    assert_eq!(resolve(&mut world), Ok(OpHeads::Single(operation("0a", &["00"], 40))));
    assert_eq!(world.locks, 1);
    assert_eq!(world.dir.entries(), names(&["0A", "0a"]));
}

#[test]
fn the_root_is_pruned_when_two_writers_built_on_it() {
    let root_id = id("00");
    let (mut store, root) =
        SimpleOpHeadsStore::init(root_id.clone(), ViewId::new(vec![1]), ended(10));
    assert_eq!(store.get_op_heads(), vec![root_id.clone()]);
    let x = operation("0a", &["00"], 40);
    let y = operation("0b", &["00"], 20);
    store.add_op_head(x.id());
    store.add_op_head(y.id());
    assert_eq!(store.get_op_heads(), ids(&["00", "0a", "0b"]));

    let log = log_of(&[root.clone(), x.clone(), y.clone()]);
    assert_eq!(
        store.get_heads(&log),
        Ok(OpHeads::Unresolved { op_heads: vec![y.clone(), x.clone()] })
    );
    assert_eq!(store.entries(), names(&["0a", "0b"]));

    let mut world = World {
        dir: InnerSimpleOpHeadsStore::from_entries(names(&["00", "0a", "0b"])),
        operations: vec![root, x.clone(), y.clone()],
        listings: 0,
        locks: 0,
        reads: vec![],
    };
    assert_eq!(resolve(&mut world), Ok(OpHeads::Unresolved { op_heads: vec![y, x] }));
    assert_eq!(world.dir.entries(), names(&["0a", "0b"]));
    assert_eq!(world.locks, 1);
}

#[test]
fn a_merge_of_the_heads_is_the_one_head_after_finish() {
    let mut operations = history();
    let mut world = world(&["0a", "0b"], &operations);
    let heads = match resolve(&mut world) {
        Ok(OpHeads::Unresolved { op_heads }) => op_heads,
        _ => panic!("the heads are divergent"),
    };
    let parents = heads.iter().map(|head| head.id().clone()).collect::<Vec<_>>();
    assert_eq!(parents, ids(&["0b", "0a"]));
    let merge = Operation::new(id("0e"), ViewId::new(vec![]), parents, ended(60));
    world.dir.finish(&merge);
    assert_eq!(world.dir.get_op_heads(), ids(&["0e"]));
    operations.push(merge.clone());
    world.operations = operations;
    assert_eq!(resolve(&mut world), Ok(OpHeads::Single(merge)));
}

#[test]
fn the_store_resolves_as_the_steps_do() {
    let log = log_of(&history());
    let mut inner = InnerSimpleOpHeadsStore::from_entries(names(&["0a", "00", "0c", "lock"]));
    assert_eq!(
        inner.get_heads(&log),
        Ok(OpHeads::Unresolved {
            op_heads: vec![operation("0c", &[], 30), operation("0a", &["00"], 40)],
        })
    );
    assert_eq!(inner.entries(), names(&["0a", "0c", "lock"]));

    let mut none = InnerSimpleOpHeadsStore::from_entries(names(&["lock"]));
    assert_eq!(none.get_heads(&log), Err(OpHeadResolutionError::NoHeads));

    let mut single = InnerSimpleOpHeadsStore::from_entries(names(&["0b"]));
    assert_eq!(single.get_heads(&log), Ok(OpHeads::Single(operation("0b", &["00"], 20))));

    let mut missing = InnerSimpleOpHeadsStore::from_entries(names(&["0b", "0f"]));
    assert_eq!(missing.get_heads(&log), Err(OpHeadResolutionError::RecordNotFound(id("0f"))));
    assert_eq!(missing.entries(), names(&["0b", "0f"]));
}

#[test]
fn ancestors_lose_their_markers() {
    let log = log_of(&history());
    let mut store = InnerSimpleOpHeadsStore::from_entries(names(&["00", "0a", "0b", "0d"]));
    let given = vec![
        operation("00", &[], 10),
        operation("0a", &["00"], 40),
        operation("0b", &["00"], 20),
        operation("0d", &["0a"], 50),
    ];
    let kept = store.handle_ancestor_ops(given, &log).unwrap();
    assert_eq!(kept, vec![operation("0b", &["00"], 20), operation("0d", &["0a"], 50)]);
    assert_eq!(store.entries(), names(&["0b", "0d"]));

    let unknown = vec![operation("0b", &["00"], 20), operation("0f", &[], 1)];
    assert_eq!(
        store.handle_ancestor_ops(unknown, &log),
        Err(OpHeadResolutionError::RecordNotFound(id("0f")))
    );
    assert_eq!(store.entries(), names(&["0b", "0d"]));
}
