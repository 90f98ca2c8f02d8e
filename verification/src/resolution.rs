//! Resolving the heads step by step, for a directory of markers and an
//! operation store that someone else reads.
//!
//! A resolution asks for one thing at a time: a listing of the directory,
//! the lock and then a listing, or the record of an operation. Whoever runs
//! it does what is asked and hands the answer to [`HeadResolution::step`],
//! until the step is done. Then the markers that the step names are to be
//! taken away, and the outcome is the result.
//!
//! A directory with one marker is resolved without the lock. With several
//! markers the lock is asked for, and the directory is listed again under
//! it: someone else may have resolved the heads in the meantime.

use vstd::prelude::*;

use crate::op_heads_store::{
    resolve_op_heads,
    OpHeadResolutionError,
    OpHeadResolutionErrorView,
    OpHeads,
    OpHeadsView,
};
use crate::op_store::OperationId;
use crate::operation::{Operation, OperationLog, OperationView};
use crate::simple_op_heads_store::InnerSimpleOpHeadsStore;

verus! {

/// What a resolution asks for.
#[derive(Debug, PartialEq, Eq)]
pub enum Request {
    /// The names of the entries of the directory of markers.
    ListHeads,
    /// The lock of the directory of markers, and then the names of its
    /// entries.
    LockAndListHeads,
    /// The record of this operation.
    ReadOperation(OperationId),
}

/// A [`Request`] as plain data.
pub enum RequestView {
    ListHeads,
    LockAndListHeads,
    ReadOperation(Seq<u8>),
}

impl View for Request {
    type V = RequestView;

    open spec fn view(&self) -> RequestView {
        match self {
            Request::ListHeads => RequestView::ListHeads,
            Request::LockAndListHeads => RequestView::LockAndListHeads,
            Request::ReadOperation(id) => RequestView::ReadOperation(id@),
        }
    }
}

/// The answer to a [`Request`].
#[derive(Debug, PartialEq, Eq)]
pub enum Answer {
    /// The names of the entries of the directory of markers.
    Listing(Vec<String>),
    /// The record of the operation that was asked for.
    Operation(Operation),
    /// The operation store has no record of the operation that was asked
    /// for.
    NoRecord,
}

/// An [`Answer`] as plain data.
pub enum AnswerView {
    Listing(Seq<Seq<char>>),
    Operation(OperationView),
    NoRecord,
}

impl View for Answer {
    type V = AnswerView;

    open spec fn view(&self) -> AnswerView {
        match self {
            Answer::Listing(names) => AnswerView::Listing(
                crate::simple_op_heads_store::name_seq(names@),
            ),
            Answer::Operation(operation) => AnswerView::Operation(operation@),
            Answer::NoRecord => AnswerView::NoRecord,
        }
    }
}

/// What a resolution waits for.
#[derive(Debug)]
enum Waiting {
    Listing { locked: bool },
    Operation {
        locked: bool,
        op_head_ids: Vec<OperationId>,
        log: OperationLog,
        wanted: OperationId,
    },
}

/// A resolution of the heads that waits for an answer.
#[derive(Debug)]
pub struct HeadResolution {
    waiting: Waiting,
}

/// A [`HeadResolution`] as plain data: what it waits for, whether it has
/// asked for the lock, and once the directory is listed for good, the
/// operations that are marked, the records read so far, and the operation
/// whose record is asked for.
pub enum HeadResolutionView {
    Listing { locked: bool },
    Operation { locked: bool, op_head_ids: Seq<Seq<u8>>, log: Seq<OperationView>, wanted: Seq<u8> },
}

impl HeadResolution {
    /// Several marked operations are resolved under the lock only.
    #[verifier::type_invariant]
    spec fn locked_for_several(self) -> bool {
        match self.waiting {
            Waiting::Listing { .. } => true,
            Waiting::Operation { locked, op_head_ids, .. } => locked || op_head_ids.len() == 1,
        }
    }
}

impl View for HeadResolution {
    type V = HeadResolutionView;

    closed spec fn view(&self) -> HeadResolutionView {
        match self.waiting {
            Waiting::Listing { locked } => HeadResolutionView::Listing { locked },
            Waiting::Operation { locked, op_head_ids, log, wanted } => {
                HeadResolutionView::Operation {
                    locked,
                    op_head_ids: crate::op_store::id_seq(op_head_ids@),
                    log: log@,
                    wanted: wanted@,
                }
            },
        }
    }
}

/// What a step of a resolution comes to.
#[derive(Debug)]
pub enum Step {
    /// The resolution goes on with the answer to this request.
    Ask(HeadResolution, Request),
    /// The resolution is done: the markers of `pruned` are to be taken
    /// away, and `outcome` is its result.
    Done { pruned: Vec<OperationId>, outcome: Result<OpHeads, OpHeadResolutionError> },
}

/// A [`Step`] as plain data.
pub enum StepView {
    Ask(HeadResolutionView, RequestView),
    Done { pruned: Seq<Seq<u8>>, outcome: Result<OpHeadsView, OpHeadResolutionErrorView> },
}

impl View for Step {
    type V = StepView;

    open spec fn view(&self) -> StepView {
        match self {
            Step::Ask(resolution, request) => StepView::Ask(resolution@, request@),
            Step::Done { pruned, outcome } => StepView::Done {
                pruned: crate::op_store::id_seq(pruned@),
                outcome: match outcome {
                    Ok(op_heads) => Ok(op_heads@),
                    Err(error) => Err(error@),
                },
            },
        }
    }
}

/// Whether `resolution` has asked for the lock.
pub open spec fn has_asked_for_lock(resolution: HeadResolutionView) -> bool {
    match resolution {
        HeadResolutionView::Listing { locked } => locked,
        HeadResolutionView::Operation { locked, .. } => locked,
    }
}

/// The request that `resolution` waits for the answer to.
pub open spec fn request_of(resolution: HeadResolutionView) -> RequestView {
    match resolution {
        HeadResolutionView::Listing { locked } => if locked {
            RequestView::LockAndListHeads
        } else {
            RequestView::ListHeads
        },
        HeadResolutionView::Operation { wanted, .. } => RequestView::ReadOperation(wanted),
    }
}

/// What resolving the marked operations `ids` with the records `log` comes
/// to: no heads where nothing is marked; the resolved heads where `log` has
/// the records for it; else a request for the record that is needed and not
/// there.
pub open spec fn resolved(locked: bool, ids: Seq<Seq<u8>>, log: Seq<OperationView>) -> StepView {
    if ids.len() == 0 {
        StepView::Done { pruned: Seq::empty(), outcome: Err(OpHeadResolutionErrorView::NoHeads) }
    } else {
        match crate::op_heads_store::needed_record(log, ids) {
            None => StepView::Done {
                pruned: crate::op_heads_store::pruned_heads(log, ids),
                outcome: Ok(crate::op_heads_store::resolved_heads(log, ids)),
            },
            Some(wanted) => StepView::Ask(
                HeadResolutionView::Operation { locked, op_head_ids: ids, log, wanted },
                RequestView::ReadOperation(wanted),
            ),
        }
    }
}

/// What `resolution` comes to with `answer`.
///
/// A listing without the lock that marks several operations leads to the
/// request for the lock. Any other listing is resolved, with no records
/// yet. The record that was asked for is added to the records, and the
/// marked operations are resolved again. That the store has no such record
/// ends the resolution with that error. An answer to something that was not
/// asked changes nothing: the request is made again.
pub open spec fn step_of(resolution: HeadResolutionView, answer: AnswerView) -> StepView {
    match resolution {
        HeadResolutionView::Listing { locked } => match answer {
            AnswerView::Listing(names) => {
                let ids = crate::simple_op_heads_store::head_ids(
                    crate::simple_op_heads_store::listed(names),
                );
                if !locked && ids.len() >= 2 {
                    StepView::Ask(
                        HeadResolutionView::Listing { locked: true },
                        RequestView::LockAndListHeads,
                    )
                } else {
                    resolved(locked, ids, Seq::empty())
                }
            },
            _ => StepView::Ask(resolution, request_of(resolution)),
        },
        HeadResolutionView::Operation { locked, op_head_ids, log, wanted } => match answer {
            AnswerView::Operation(operation) => if operation.id == wanted {
                resolved(locked, op_head_ids, crate::operation::recorded(log, operation))
            } else {
                StepView::Ask(resolution, request_of(resolution))
            },
            AnswerView::NoRecord => StepView::Done {
                pruned: Seq::empty(),
                outcome: Err(OpHeadResolutionErrorView::RecordNotFound(wanted)),
            },
            _ => StepView::Ask(resolution, request_of(resolution)),
        },
    }
}

/// Resolves the marked operations with the records read so far, or asks for
/// a record that is missing.
fn resolve(locked: bool, op_head_ids: Vec<OperationId>, log: OperationLog) -> (step: Step)
    requires
        locked || op_head_ids.len() <= 1,
    ensures
        step@ == resolved(locked, crate::op_store::id_seq(op_head_ids@), log@),
        step matches Step::Done { outcome: Ok(OpHeads::Unresolved { .. }), .. } ==> locked,
{
    match resolve_op_heads(&op_head_ids, &log) {
        Ok((op_heads, pruned)) => Step::Done { pruned, outcome: Ok(op_heads) },
        Err(OpHeadResolutionError::NoHeads) => {
            let pruned: Vec<OperationId> = Vec::new();
            assert(crate::op_store::id_seq(pruned@) =~= Seq::<Seq<u8>>::empty());
            Step::Done { pruned, outcome: Err(OpHeadResolutionError::NoHeads) }
        },
        Err(OpHeadResolutionError::RecordNotFound(wanted)) => {
            let request = Request::ReadOperation(wanted.clone());
            let resolution = HeadResolution {
                waiting: Waiting::Operation { locked, op_head_ids, log, wanted },
            };
            Step::Ask(resolution, request)
        },
    }
}

impl HeadResolution {
    /// A resolution at its start, and its first request: a listing of the
    /// directory of markers, without the lock.
    pub fn new() -> (start: (Self, Request))
        ensures
            start.0@ == (HeadResolutionView::Listing { locked: false }),
            start.1@ == RequestView::ListHeads,
    {
        (HeadResolution { waiting: Waiting::Listing { locked: false } }, Request::ListHeads)
    }

    /// Whether the resolution has asked for the lock.
    pub fn is_locked(&self) -> (locked: bool)
        ensures
            locked == has_asked_for_lock(self@),
    {
        match &self.waiting {
            Waiting::Listing { locked } => *locked,
            Waiting::Operation { locked, .. } => *locked,
        }
    }

    /// Goes on with `answer`, the answer to the request that was made last.
    ///
    /// Divergent heads are the outcome only of a resolution that has asked
    /// for the lock.
    pub fn step(self, answer: Answer) -> (step: Step)
        ensures
            step@ == step_of(self@, answer@),
            step matches Step::Done { outcome: Ok(OpHeads::Unresolved { .. }), .. }
                ==> has_asked_for_lock(self@),
    {
        proof {
            use_type_invariant(&self);
        }
        match self.waiting {
            Waiting::Listing { locked } => match answer {
                Answer::Listing(names) => {
                    let op_head_ids = InnerSimpleOpHeadsStore::from_entries(names).get_op_heads();
                    if !locked && op_head_ids.len() >= 2 {
                        Step::Ask(
                            HeadResolution { waiting: Waiting::Listing { locked: true } },
                            Request::LockAndListHeads,
                        )
                    } else {
                        resolve(locked, op_head_ids, OperationLog::new())
                    }
                },
                _ => {
                    let request = if locked {
                        Request::LockAndListHeads
                    } else {
                        Request::ListHeads
                    };
                    Step::Ask(HeadResolution { waiting: Waiting::Listing { locked } }, request)
                },
            },
            Waiting::Operation { locked, op_head_ids, log, wanted } => match answer {
                Answer::Operation(operation) => {
                    if *operation.id() == wanted {
                        let mut log = log;
                        log.record(operation);
                        resolve(locked, op_head_ids, log)
                    } else {
                        let request = Request::ReadOperation(wanted.clone());
                        Step::Ask(
                            HeadResolution {
                                waiting: Waiting::Operation { locked, op_head_ids, log, wanted },
                            },
                            request,
                        )
                    }
                },
                Answer::NoRecord => {
                    let pruned: Vec<OperationId> = Vec::new();
                    assert(crate::op_store::id_seq(pruned@) =~= Seq::<Seq<u8>>::empty());
                    Step::Done {
                        pruned,
                        outcome: Err(OpHeadResolutionError::RecordNotFound(wanted)),
                    }
                },
                Answer::Listing(_) => {
                    let request = Request::ReadOperation(wanted.clone());
                    Step::Ask(
                        HeadResolution {
                            waiting: Waiting::Operation { locked, op_head_ids, log, wanted },
                        },
                        request,
                    )
                },
            },
        }
    }
}

/// A directory with one marker is resolved without the lock: the first
/// listing leads to the request for the record of the marked operation, and
/// that record is the single head.
pub proof fn lemma_single_head_needs_no_lock(names: Seq<Seq<char>>, operation: OperationView)
    requires
        crate::simple_op_heads_store::head_ids(crate::simple_op_heads_store::listed(names))
            == seq![operation.id],
    ensures
        step_of(HeadResolutionView::Listing { locked: false }, AnswerView::Listing(names))
            == StepView::Ask(
            HeadResolutionView::Operation {
                locked: false,
                op_head_ids: seq![operation.id],
                log: Seq::empty(),
                wanted: operation.id,
            },
            RequestView::ReadOperation(operation.id),
        ),
        step_of(
            HeadResolutionView::Operation {
                locked: false,
                op_head_ids: seq![operation.id],
                log: Seq::empty(),
                wanted: operation.id,
            },
            AnswerView::Operation(operation),
        ) == (StepView::Done { pruned: Seq::empty(), outcome: Ok(OpHeadsView::Single(operation)) }),
{
    let ids = seq![operation.id];
    let none = Seq::<OperationView>::empty();
    assert(!crate::operation::has_record(none, ids[0]));
    let log = crate::operation::recorded(none, operation);
    assert(log =~= seq![operation]);
    assert(log[0].id == operation.id);
    assert(crate::operation::has_record(log, ids[0]));
    crate::operation::lemma_record_of(log, 0);
}

/// What a resolution finds around it: the entries of the directory of
/// markers when it is listed without the lock and when it is listed under
/// the lock, and the records of the operation store.
pub struct Surroundings {
    pub listing: Seq<Seq<char>>,
    pub listing_under_lock: Seq<Seq<char>>,
    pub records: Seq<OperationView>,
}

/// The answer that `request` gets in `surroundings`.
pub open spec fn answer_in(surroundings: Surroundings, request: RequestView) -> AnswerView {
    match request {
        RequestView::ListHeads => AnswerView::Listing(surroundings.listing),
        RequestView::LockAndListHeads => AnswerView::Listing(surroundings.listing_under_lock),
        RequestView::ReadOperation(id) => {
            if crate::operation::has_record(surroundings.records, id) {
                AnswerView::Operation(crate::operation::record_of(surroundings.records, id))
            } else {
                AnswerView::NoRecord
            }
        },
    }
}

/// What `resolution` comes to in `surroundings` when each request gets its
/// answer, after one step and up to `more` steps more.
pub open spec fn run(
    surroundings: Surroundings,
    resolution: HeadResolutionView,
    more: nat,
) -> StepView
    decreases more,
{
    let step = step_of(resolution, answer_in(surroundings, request_of(resolution)));
    if more == 0 {
        step
    } else {
        match step {
            StepView::Ask(next, _) => run(surroundings, next, (more - 1) as nat),
            _ => step,
        }
    }
}

/// The operations that a resolution in `surroundings` resolves: those
/// that the first listing marks, unless they are several; then those that
/// the listing under the lock marks.
pub open spec fn ids_to_resolve(surroundings: Surroundings) -> Seq<Seq<u8>> {
    let first = crate::simple_op_heads_store::head_ids(
        crate::simple_op_heads_store::listed(surroundings.listing),
    );
    if first.len() >= 2 {
        crate::simple_op_heads_store::head_ids(
            crate::simple_op_heads_store::listed(surroundings.listing_under_lock),
        )
    } else {
        first
    }
}

/// Whether `end` is what resolving the operations `ids` with the records
/// of the whole store comes to: no heads where nothing is marked; the
/// resolved heads where the store has the records for it; else the error
/// that names an operation that the resolution comes to and that the store
/// has no record of.
pub open spec fn is_resolution_of(
    records: Seq<OperationView>,
    ids: Seq<Seq<u8>>,
    end: StepView,
) -> bool {
    if ids.len() == 0 {
        end == (StepView::Done {
            pruned: Seq::empty(),
            outcome: Err(OpHeadResolutionErrorView::NoHeads),
        })
    } else if crate::op_heads_store::needed_record(records, ids) is None {
        end == (StepView::Done {
            pruned: crate::op_heads_store::pruned_heads(records, ids),
            outcome: Ok(crate::op_heads_store::resolved_heads(records, ids)),
        })
    } else {
        exists|id: Seq<u8>|
            {
                &&& #[trigger] crate::dag_walk::is_reached(records, ids, id)
                &&& !crate::operation::has_record(records, id)
                &&& end == (StepView::Done {
                    pruned: Seq::empty(),
                    outcome: Err(OpHeadResolutionErrorView::RecordNotFound(id)),
                })
            }
    }
}

/// The records of `records` that `log` has no record of.
spec fn unread(records: Seq<OperationView>, log: Seq<OperationView>) -> Seq<OperationView> {
    records.filter(|record: OperationView| !crate::operation::has_record(log, record.id))
}

/// A log with one more record has the records it had and that one.
proof fn lemma_has_record_after_push(log: Seq<OperationView>, record: OperationView, id: Seq<u8>)
    ensures
        crate::operation::has_record(log.push(record), id) <==> crate::operation::has_record(
            log,
            id,
        ) || id == record.id,
{
    let longer = log.push(record);
    if crate::operation::has_record(log, id) {
        let i = choose|i: int| 0 <= i < log.len() && (#[trigger] log[i]).id == id;
        assert(longer[i].id == id);
    }
    if id == record.id {
        assert(longer[log.len() as int].id == id);
    }
    if crate::operation::has_record(longer, id) {
        let i = choose|i: int| 0 <= i < longer.len() && (#[trigger] longer[i]).id == id;
        if i < log.len() {
            assert(log[i].id == id);
        }
    }
}

/// One more record in the log leaves as many unread as there were, where
/// none of `records` has its id.
proof fn lemma_unread_of_others(
    records: Seq<OperationView>,
    log: Seq<OperationView>,
    record: OperationView,
)
    requires
        forall|i: int| 0 <= i < records.len() ==> (#[trigger] records[i]).id != record.id,
    ensures
        unread(records, log.push(record)) == unread(records, log),
    decreases records.len(),
{
    reveal(Seq::filter);
    if records.len() > 0 {
        let shorter = records.drop_last();
        assert forall|i: int| 0 <= i < shorter.len() implies (#[trigger] shorter[i]).id
            != record.id by {
            assert(shorter[i] == records[i]);
        }
        lemma_unread_of_others(shorter, log, record);
        assert(records[records.len() - 1].id != record.id);
        lemma_has_record_after_push(log, record, records.last().id);
    }
}

/// Reading a record that was unread leaves one less unread.
proof fn lemma_unread_after_read(
    records: Seq<OperationView>,
    log: Seq<OperationView>,
    record: OperationView,
)
    requires
        crate::operation::unique_ids(records),
        records.contains(record),
        !crate::operation::has_record(log, record.id),
    ensures
        unread(records, log.push(record)).len() + 1 == unread(records, log).len(),
    decreases records.len(),
{
    reveal(Seq::filter);
    let shorter = records.drop_last();
    let last = records.last();
    let at = choose|at: int| 0 <= at < records.len() && records[at] == record;
    assert forall|i: int, j: int| 0 <= i < j < shorter.len() implies (#[trigger] shorter[i]).id != (
    #[trigger] shorter[j]).id by {
        assert(shorter[i] == records[i] && shorter[j] == records[j]);
    }
    lemma_has_record_after_push(log, record, last.id);
    if at == records.len() - 1 {
        assert forall|i: int| 0 <= i < shorter.len() implies (#[trigger] shorter[i]).id
            != record.id by {
            assert(shorter[i] == records[i]);
        }
        lemma_unread_of_others(shorter, log, record);
    } else {
        assert(shorter[at] == record);
        assert(records[at].id != records[records.len() - 1].id);
        lemma_unread_after_read(shorter, log, record);
    }
}

/// A resolution that asks for a record goes on to what resolving with the
/// records of the whole store comes to, in no more steps than records are
/// unread.
proof fn lemma_run_reads(
    surroundings: Surroundings,
    locked: bool,
    ids: Seq<Seq<u8>>,
    log: Seq<OperationView>,
    wanted: Seq<u8>,
    more: nat,
)
    requires
        crate::operation::unique_ids(surroundings.records),
        crate::dag_walk::is_part_of(log, surroundings.records),
        ids.len() > 0,
        crate::op_heads_store::needed_record(log, ids) == Some(wanted),
        more >= unread(surroundings.records, log).len(),
    ensures
        is_resolution_of(
            surroundings.records,
            ids,
            run(
                surroundings,
                HeadResolutionView::Operation { locked, op_head_ids: ids, log, wanted },
                more,
            ),
        ),
    decreases more,
{
    let records = surroundings.records;
    let resolution = HeadResolutionView::Operation { locked, op_head_ids: ids, log, wanted };
    crate::op_heads_store::lemma_needed_record(log, ids);
    crate::op_heads_store::lemma_needed_record(records, ids);
    crate::dag_walk::lemma_reached_in_more(log, records, ids, wanted);
    if crate::operation::has_record(records, wanted) {
        let at = choose|i: int| 0 <= i < records.len() && (#[trigger] records[i]).id == wanted;
        crate::operation::lemma_record_of(records, at);
        let record = records[at];
        let longer = log.push(record);
        assert(crate::operation::recorded(log, record) == longer);
        assert forall|i: int| 0 <= i < longer.len() implies records.contains(
            #[trigger] longer[i],
        ) by {
            if i < log.len() {
                assert(longer[i] == log[i]);
            }
        }
        lemma_unread_after_read(records, log, record);
        let step = resolved(locked, ids, longer);
        match crate::op_heads_store::needed_record(longer, ids) {
            None => {
                crate::op_heads_store::lemma_resolved_in_more(longer, records, ids);
            },
            Some(next) => {
                if more > 0 {
                    lemma_run_reads(surroundings, locked, ids, longer, next, (more - 1) as nat);
                }
            },
        }
    } else {
        if ids.len() == 1 {
            assert(wanted == ids[0]);
        }
    }
}

/// What resolving the operations `ids` with no records yet comes to, when
/// the resolution goes on from it for up to `more` steps.
spec fn resolved_and_run(
    surroundings: Surroundings,
    locked: bool,
    ids: Seq<Seq<u8>>,
    more: nat,
) -> StepView {
    match resolved(locked, ids, Seq::empty()) {
        StepView::Ask(next, _) => run(surroundings, next, more),
        done => done,
    }
}

/// A resolution in which each request gets its answer comes to what
/// resolving with the records of the whole store comes to: it needs no
/// records but those it asks for, and it asks for no more than the store
/// has, and one.
pub proof fn lemma_run_resolves(surroundings: Surroundings, more: nat)
    requires
        crate::operation::unique_ids(surroundings.records),
        more >= surroundings.records.len() + 2,
    ensures
        is_resolution_of(
            surroundings.records,
            ids_to_resolve(surroundings),
            run(surroundings, HeadResolutionView::Listing { locked: false }, more),
        ),
{
    let records = surroundings.records;
    let none = Seq::<OperationView>::empty();
    let first = crate::simple_op_heads_store::head_ids(
        crate::simple_op_heads_store::listed(surroundings.listing),
    );
    let ids = ids_to_resolve(surroundings);
    let locked = first.len() >= 2;
    assert(unread(records, none).len() <= records.len()) by {
        records.lemma_filter_len(
            |record: OperationView| !crate::operation::has_record(none, record.id),
        );
    }
    assert(crate::dag_walk::is_part_of(none, records));
    let start = HeadResolutionView::Listing { locked: false };
    let under_lock = HeadResolutionView::Listing { locked: true };
    let left = if locked {
        (more - 2) as nat
    } else {
        (more - 1) as nat
    };
    assert(run(surroundings, start, more) == if locked {
        run(surroundings, under_lock, (more - 1) as nat)
    } else {
        resolved_and_run(surroundings, false, ids, (more - 1) as nat)
    });
    assert(run(surroundings, under_lock, (more - 1) as nat) == resolved_and_run(
        surroundings,
        true,
        crate::simple_op_heads_store::head_ids(
            crate::simple_op_heads_store::listed(surroundings.listing_under_lock),
        ),
        (more - 2) as nat,
    ));
    if ids.len() > 0 {
        match crate::op_heads_store::needed_record(none, ids) {
            None => {
                crate::op_heads_store::lemma_resolved_in_more(none, records, ids);
            },
            Some(wanted) => {
                lemma_run_reads(surroundings, locked, ids, none, wanted, left);
            },
        }
    }
}

} // verus!
