//! What resolving the heads of the operation log gives, and how divergent
//! heads are ordered.

use vstd::prelude::*;

use crate::op_store::OperationId;
use crate::operation::{Operation, OperationLog, OperationView};

verus! {

/// Why the heads could not be resolved.
#[derive(Debug, PartialEq, Eq)]
pub enum OpHeadResolutionError {
    /// No marker names an operation.
    NoHeads,
    /// The store has no record of an operation that the resolution came to.
    RecordNotFound(OperationId),
}

/// An [`OpHeadResolutionError`] as plain data.
pub enum OpHeadResolutionErrorView {
    NoHeads,
    RecordNotFound(Seq<u8>),
}

impl View for OpHeadResolutionError {
    type V = OpHeadResolutionErrorView;

    open spec fn view(&self) -> OpHeadResolutionErrorView {
        match self {
            OpHeadResolutionError::NoHeads => OpHeadResolutionErrorView::NoHeads,
            OpHeadResolutionError::RecordNotFound(id) => OpHeadResolutionErrorView::RecordNotFound(
                id@,
            ),
        }
    }
}

/// The heads of the operation log, resolved as far as that takes no merge.
#[derive(Debug, PartialEq, Eq)]
pub enum OpHeads {
    /// The log has one head.
    Single(Operation),
    /// The log has divergent heads, here from the one that ended first to
    /// the one that ended last. They are to be merged by a new operation
    /// with these heads as its parents.
    Unresolved { op_heads: Vec<Operation> },
}

/// An [`OpHeads`] as plain data.
pub enum OpHeadsView {
    Single(OperationView),
    Unresolved { op_heads: Seq<OperationView> },
}

impl View for OpHeads {
    type V = OpHeadsView;

    open spec fn view(&self) -> OpHeadsView {
        match self {
            OpHeads::Single(operation) => OpHeadsView::Single(operation@),
            OpHeads::Unresolved { op_heads } => OpHeadsView::Unresolved {
                op_heads: crate::operation::operation_seq(op_heads@),
            },
        }
    }
}

/// Whether `a` ended no later than `b`: at an earlier time, or at the same
/// time with a time zone offset that is not greater.
pub open spec fn ends_no_later(a: OperationView, b: OperationView) -> bool {
    let a_end = a.metadata.end_time;
    let b_end = b.metadata.end_time;
    a_end.timestamp.0 < b_end.timestamp.0 || (a_end.timestamp.0 == b_end.timestamp.0
        && a_end.tz_offset <= b_end.tz_offset)
}

/// Whether `a` and `b` ended at the same time with the same time zone offset.
pub open spec fn ends_with(a: OperationView, b: OperationView) -> bool {
    a.metadata.end_time == b.metadata.end_time
}

/// Whether the operations of `operations` stand from the one that ended
/// first to the one that ended last.
pub open spec fn is_ordered_by_end(operations: Seq<OperationView>) -> bool {
    forall|i: int, j: int|
        0 <= i < j < operations.len() ==> ends_no_later(
            #[trigger] operations[i],
            #[trigger] operations[j],
        )
}

/// Whether each of `operations` ended before the next.
pub open spec fn is_strictly_ordered_by_end(operations: Seq<OperationView>) -> bool {
    forall|i: int, j: int|
        0 <= i < j < operations.len() ==> ends_no_later(
            #[trigger] operations[i],
            #[trigger] operations[j],
        ) && !ends_with(operations[i], operations[j])
}

/// Whether no two of `operations` ended at the same time with the same
/// time zone offset.
pub open spec fn ends_differ(operations: Seq<OperationView>) -> bool {
    forall|i: int, j: int|
        0 <= i < j < operations.len() ==> !ends_with(
            #[trigger] operations[i],
            #[trigger] operations[j],
        )
}

/// Those of `operations` that ended at `end`, in their order.
pub open spec fn ended_at(operations: Seq<OperationView>, end: crate::op_store::Timestamp) -> Seq<
    OperationView,
> {
    operations.filter(|operation: OperationView| operation.metadata.end_time == end)
}

/// `ordered` with `operation` put behind the last one that ended no later.
pub open spec fn inserted_by_end(ordered: Seq<OperationView>, operation: OperationView) -> Seq<
    OperationView,
>
    decreases ordered.len(),
{
    if ordered.len() == 0 {
        seq![operation]
    } else if ends_no_later(ordered.last(), operation) {
        ordered.push(operation)
    } else {
        inserted_by_end(ordered.drop_last(), operation).push(ordered.last())
    }
}

/// `operations` from the one that ended first to the one that ended last;
/// those that ended together stay in the order they had.
pub open spec fn ordered_by_end(operations: Seq<OperationView>) -> Seq<OperationView>
    decreases operations.len(),
{
    if operations.len() == 0 {
        Seq::empty()
    } else {
        inserted_by_end(ordered_by_end(operations.drop_last()), operations.last())
    }
}

/// Whether the operations of `ids` can be resolved with the records of
/// `log`: a single one needs its own record, several need the record of
/// every operation that a walk from them comes to.
pub open spec fn can_resolve(log: Seq<OperationView>, ids: Seq<Seq<u8>>) -> bool {
    if ids.len() == 1 {
        crate::operation::has_record(log, ids[0])
    } else {
        crate::dag_walk::is_complete(log, ids)
    }
}

/// The operation whose record is needed to resolve the operations of `ids`
/// and is not in `log`: the single one of `ids`, or the one that a walk from
/// several misses. None where `log` has the records that are needed.
pub open spec fn needed_record(log: Seq<OperationView>, ids: Seq<Seq<u8>>) -> Option<Seq<u8>> {
    if ids.len() == 1 {
        if crate::operation::has_record(log, ids[0]) {
            None
        } else {
            Some(ids[0])
        }
    } else {
        crate::dag_walk::missing_record(log, ids)
    }
}

/// What the heads marked by `ids` resolve to: a single marked operation as
/// it is; of several the one that is no ancestor of another, or else those
/// that are no ancestors of another from the one that ended first to the
/// one that ended last.
pub open spec fn resolved_heads(log: Seq<OperationView>, ids: Seq<Seq<u8>>) -> OpHeadsView {
    let heads = crate::operation::records_of(log, crate::dag_walk::heads_of(log, ids));
    if ids.len() == 1 {
        OpHeadsView::Single(crate::operation::record_of(log, ids[0]))
    } else if heads.len() == 1 {
        OpHeadsView::Single(heads[0])
    } else {
        OpHeadsView::Unresolved { op_heads: ordered_by_end(heads) }
    }
}

/// Those of `among` that are an ancestor of one of `ids`, in their order.
pub open spec fn ancestors_among(
    log: Seq<OperationView>,
    ids: Seq<Seq<u8>>,
    among: Seq<Seq<u8>>,
) -> Seq<Seq<u8>> {
    among.filter(|id: Seq<u8>| crate::dag_walk::is_ancestor_of_any(log, ids, id))
}

/// The marked operations that are no heads: none where a single operation
/// is marked, else those that are an ancestor of a marked one.
pub open spec fn pruned_heads(log: Seq<OperationView>, ids: Seq<Seq<u8>>) -> Seq<Seq<u8>> {
    if ids.len() == 1 {
        Seq::empty()
    } else {
        ancestors_among(log, ids, ids)
    }
}

/// Putting an operation behind the last one that ended no later is
/// inserting it at that place.
proof fn lemma_inserted_by_end_at(ordered: Seq<OperationView>, operation: OperationView, at: int)
    requires
        0 <= at <= ordered.len(),
        at == 0 || ends_no_later(ordered[at - 1], operation),
        forall|i: int| at <= i < ordered.len() ==> !ends_no_later(#[trigger] ordered[i], operation),
    ensures
        inserted_by_end(ordered, operation) == ordered.insert(at, operation),
    decreases ordered.len(),
{
    if ordered.len() == 0 {
        assert(ordered.insert(at, operation) =~= seq![operation]);
    } else if at == ordered.len() {
        assert(ordered.insert(at, operation) =~= ordered.push(operation));
    } else {
        let shorter = ordered.drop_last();
        assert(!ends_no_later(ordered[ordered.len() - 1], operation));
        lemma_inserted_by_end_at(shorter, operation, at);
        assert(shorter.insert(at, operation).push(ordered.last()) =~= ordered.insert(
            at,
            operation,
        ));
    }
}

/// Whether the operation `a` ended later than `b`.
fn ends_later(a: &Operation, b: &Operation) -> (later: bool)
    ensures
        later == !ends_no_later(a@, b@),
{
    let a_end = a.metadata().end_time;
    let b_end = b.metadata().end_time;
    a_end.timestamp.0 > b_end.timestamp.0 || (a_end.timestamp.0 == b_end.timestamp.0
        && a_end.tz_offset > b_end.tz_offset)
}

/// The operations of `operations` from the one that ended first to the one
/// that ended last. Those that ended at the same time stand by their time
/// zone offsets, and those that agree in that too stay in the order they
/// had.
pub fn sort_by_end_time(operations: &Vec<Operation>) -> (ordered: Vec<Operation>)
    ensures
        crate::operation::operation_seq(ordered@) == ordered_by_end(
            crate::operation::operation_seq(operations@),
        ),
{
    let ghost views = crate::operation::operation_seq(operations@);
    let mut ordered: Vec<Operation> = Vec::new();
    let mut k: usize = 0;
    assert(views.take(0) =~= Seq::empty());
    while k < operations.len()
        invariant
            k <= operations.len(),
            views == crate::operation::operation_seq(operations@),
            ordered.len() == k,
            crate::operation::operation_seq(ordered@) == ordered_by_end(views.take(k as int)),
        decreases operations.len() - k,
    {
        let operation = operations[k].clone();
        let ghost before = crate::operation::operation_seq(ordered@);
        let mut at: usize = ordered.len();
        while at > 0 && ends_later(&ordered[at - 1], &operation)
            invariant
                at <= ordered.len(),
                before == crate::operation::operation_seq(ordered@),
                forall|i: int|
                    at <= i < ordered.len() ==> !ends_no_later(#[trigger] before[i], operation@),
            decreases at,
        {
            at -= 1;
        }
        proof {
            lemma_inserted_by_end_at(before, operation@, at as int);
            assert(views.take(k + 1).drop_last() =~= views.take(k as int));
            assert(views.take(k + 1).last() == operation@);
        }
        ordered.insert(at, operation);
        assert(crate::operation::operation_seq(ordered@) =~= before.insert(
            at as int,
            operation@,
        ));
        k += 1;
    }
    assert(views.take(k as int) =~= views);
    ordered
}

/// Whether one of `operations` has the id `id`.
fn has_operation(operations: &Vec<Operation>, id: &OperationId) -> (has: bool)
    ensures
        has <==> exists|m: int|
            0 <= m < operations.len() && (#[trigger] crate::operation::operation_seq(
                operations@,
            )[m]).id == id@,
{
    let mut m: usize = 0;
    while m < operations.len()
        invariant
            m <= operations.len(),
            forall|w: int|
                0 <= w < m ==> (#[trigger] crate::operation::operation_seq(operations@)[w]).id
                    != id@,
        decreases operations.len() - m,
    {
        assert(crate::operation::operation_seq(operations@)[m as int] == operations[m as int]@);
        if *operations[m].id() == *id {
            return true;
        }
        m += 1;
    }
    false
}

/// The heads among the operations `op_head_ids`, and those of
/// `op_head_ids` that are no heads because they are an ancestor of another.
///
/// The walk needs the record of every operation it comes to. Where `log`
/// lacks one, the result is the id of the operation whose record the walk
/// misses.
pub fn prune_ancestors(op_head_ids: &Vec<OperationId>, log: &OperationLog) -> (pruning: Result<
    (Vec<Operation>, Vec<OperationId>),
    OperationId,
>)
    ensures
        match pruning {
            Ok((heads, pruned)) => {
                &&& crate::dag_walk::missing_record(log@, crate::op_store::id_seq(op_head_ids@))
                    is None
                &&& crate::operation::operation_seq(heads@) == crate::operation::records_of(
                    log@,
                    crate::dag_walk::heads_of(log@, crate::op_store::id_seq(op_head_ids@)),
                )
                &&& crate::op_store::id_seq(pruned@) == ancestors_among(
                    log@,
                    crate::op_store::id_seq(op_head_ids@),
                    crate::op_store::id_seq(op_head_ids@),
                )
            },
            Err(id) => crate::dag_walk::missing_record(
                log@,
                crate::op_store::id_seq(op_head_ids@),
            ) == Some(id@),
        },
{
    let ghost ids = crate::op_store::id_seq(op_head_ids@);
    let heads = match crate::dag_walk::heads(op_head_ids, log) {
        Ok(heads) => heads,
        Err(id) => {
            return Err(id);
        },
    };
    let ghost head_ids = crate::dag_walk::heads_of(log@, ids);
    let ghost head_views = crate::operation::operation_seq(heads@);
    proof {
        crate::dag_walk::lemma_heads_of_are_heads(log@, ids);
        crate::dag_walk::lemma_missing_record(log@, ids);
        assert forall|m: int| 0 <= m < head_ids.len() implies (#[trigger] head_views[m]).id
            == head_ids[m] by {
            let id = head_ids[m];
            assert(head_ids.contains(id));
            assert(crate::dag_walk::is_head(log@, ids, id));
            assert(crate::dag_walk::is_reached(log@, ids, id));
            assert(crate::operation::has_record(log@, id));
            assert(head_views[m] == crate::operation::record_of(log@, id));
        }
    }
    let mut pruned: Vec<OperationId> = Vec::new();
    let mut k: usize = 0;
    proof {
        reveal(Seq::filter);
        assert(crate::op_store::id_seq(pruned@) =~= Seq::<Seq<u8>>::empty());
        assert(ids.take(0) =~= Seq::<Seq<u8>>::empty());
    }
    while k < op_head_ids.len()
        invariant
            k <= op_head_ids.len(),
            ids == crate::op_store::id_seq(op_head_ids@),
            head_ids == crate::dag_walk::heads_of(log@, ids),
            head_views == crate::operation::operation_seq(heads@),
            head_views.len() == head_ids.len(),
            forall|m: int| 0 <= m < head_ids.len() ==> (#[trigger] head_views[m]).id == head_ids[m],
            forall|id: Seq<u8>| head_ids.contains(id) <==> crate::dag_walk::is_head(log@, ids, id),
            crate::op_store::id_seq(pruned@) == ancestors_among(log@, ids, ids.take(k as int)),
        decreases op_head_ids.len() - k,
    {
        let ghost before = crate::op_store::id_seq(pruned@);
        let ghost id = ids[k as int];
        proof {
            reveal(Seq::filter);
            assert(ids.take(k + 1).drop_last() =~= ids.take(k as int));
            assert(ids.take(k + 1).last() == id);
            assert(id == op_head_ids[k as int]@);
            assert(ids.contains(id));
            if head_ids.contains(id) {
                let m = choose|m: int| 0 <= m < head_ids.len() && head_ids[m] == id;
                assert(head_views[m].id == id);
            }
        }
        if !has_operation(&heads, &op_head_ids[k]) {
            pruned.push(op_head_ids[k].clone());
            proof {
                assert(!head_ids.contains(id)) by {
                    if head_ids.contains(id) {
                        let m = choose|m: int| 0 <= m < head_ids.len() && head_ids[m] == id;
                        assert(head_views[m].id == id);
                    }
                }
                assert(crate::op_store::id_seq(pruned@) =~= before.push(id));
            }
        } else {
            proof {
                let m = choose|m: int|
                    0 <= m < heads.len() && (#[trigger] crate::operation::operation_seq(
                        heads@,
                    )[m]).id == id;
                assert(head_ids[m] == id);
                assert(head_ids.contains(id));
            }
        }
        k += 1;
    }
    assert(ids.take(k as int) =~= ids);
    Ok((heads, pruned))
}

/// Resolves the heads that are marked by `op_head_ids`, with the records of
/// `log`, to the heads of the log and the marked operations that are no
/// heads.
///
/// No marked operation is an error. A single one is the head, as it is.
/// Of several, those that are an ancestor of another are no heads. If one
/// is left, it is the head; else the heads are divergent, and they are
/// given from the one that ended first to the one that ended last.
///
/// The records of the marked operations are needed, and where several are
/// marked, those of all their ancestors. Where `log` lacks one, the error
/// names the operation whose record is needed and not there.
pub fn resolve_op_heads(op_head_ids: &Vec<OperationId>, log: &OperationLog) -> (resolved: Result<
    (OpHeads, Vec<OperationId>),
    OpHeadResolutionError,
>)
    ensures
        match resolved {
            Ok((op_heads, pruned)) => {
                &&& op_head_ids.len() > 0
                &&& needed_record(log@, crate::op_store::id_seq(op_head_ids@)) is None
                &&& op_heads@ == resolved_heads(log@, crate::op_store::id_seq(op_head_ids@))
                &&& crate::op_store::id_seq(pruned@) == pruned_heads(
                    log@,
                    crate::op_store::id_seq(op_head_ids@),
                )
            },
            Err(OpHeadResolutionError::NoHeads) => op_head_ids.len() == 0,
            Err(OpHeadResolutionError::RecordNotFound(id)) => {
                &&& op_head_ids.len() > 0
                &&& needed_record(log@, crate::op_store::id_seq(op_head_ids@)) == Some(id@)
            },
        },
{
    let ghost ids = crate::op_store::id_seq(op_head_ids@);
    if op_head_ids.len() == 0 {
        return Err(OpHeadResolutionError::NoHeads);
    }
    if op_head_ids.len() == 1 {
        assert(ids[0] == op_head_ids[0]@);
        return match log.read_operation(&op_head_ids[0]) {
            Some(operation) => {
                let pruned: Vec<OperationId> = Vec::new();
                assert(crate::op_store::id_seq(pruned@) =~= Seq::<Seq<u8>>::empty());
                Ok((OpHeads::Single(operation), pruned))
            },
            None => Err(OpHeadResolutionError::RecordNotFound(op_head_ids[0].clone())),
        };
    }
    let (mut heads, pruned) = match prune_ancestors(op_head_ids, log) {
        Ok(pruning) => pruning,
        Err(id) => {
            return Err(OpHeadResolutionError::RecordNotFound(id));
        },
    };
    if heads.len() == 1 {
        let ghost head_views = crate::operation::operation_seq(heads@);
        let head = heads.pop().unwrap();
        assert(head@ == head_views[0]);
        Ok((OpHeads::Single(head), pruned))
    } else {
        let op_heads = sort_by_end_time(&heads);
        Ok((OpHeads::Unresolved { op_heads }, pruned))
    }
}

/// The place behind the last operation of `ordered` that ended no later
/// than `operation`.
spec fn place_by_end(ordered: Seq<OperationView>, operation: OperationView) -> int
    decreases ordered.len(),
{
    if ordered.len() == 0 {
        0
    } else if ends_no_later(ordered.last(), operation) {
        ordered.len() as int
    } else {
        place_by_end(ordered.drop_last(), operation)
    }
}

/// The place of an operation is behind those that ended no later and
/// before those that ended later.
proof fn lemma_place_by_end(ordered: Seq<OperationView>, operation: OperationView)
    ensures
        0 <= place_by_end(ordered, operation) <= ordered.len(),
        place_by_end(ordered, operation) == 0 || ends_no_later(
            ordered[place_by_end(ordered, operation) - 1],
            operation,
        ),
        forall|i: int|
            place_by_end(ordered, operation) <= i < ordered.len() ==> !ends_no_later(
                #[trigger] ordered[i],
                operation,
            ),
    decreases ordered.len(),
{
    if ordered.len() > 0 && !ends_no_later(ordered.last(), operation) {
        let shorter = ordered.drop_last();
        lemma_place_by_end(shorter, operation);
        assert forall|i: int|
            place_by_end(ordered, operation) <= i < ordered.len() implies !ends_no_later(
            #[trigger] ordered[i],
            operation,
        ) by {
            if i < shorter.len() {
                assert(ordered[i] == shorter[i]);
            }
        }
    }
}

/// Ordering keeps the operations and puts them in order.
pub proof fn lemma_ordered_by_end(operations: Seq<OperationView>)
    ensures
        is_ordered_by_end(ordered_by_end(operations)),
        ordered_by_end(operations).to_multiset() == operations.to_multiset(),
        ordered_by_end(operations).len() == operations.len(),
    decreases operations.len(),
{
    broadcast use vstd::seq_lib::to_multiset_build, vstd::seq_lib::to_multiset_insert;

    if operations.len() == 0 {
        assert(operations =~= Seq::empty());
    } else {
        let shorter = operations.drop_last();
        let last = operations.last();
        lemma_ordered_by_end(shorter);
        let before = ordered_by_end(shorter);
        let at = place_by_end(before, last);
        lemma_place_by_end(before, last);
        lemma_inserted_by_end_at(before, last, at);
        let after = before.insert(at, last);
        before.insert_ensures(at, last);
        assert(operations =~= shorter.push(last));
        assert forall|i: int, j: int| 0 <= i < j < after.len() implies ends_no_later(
            #[trigger] after[i],
            #[trigger] after[j],
        ) by {
            if j < at {
                assert(after[i] == before[i] && after[j] == before[j]);
            } else if j == at {
                assert(after[i] == before[i]);
                assert(ends_no_later(before[i], before[at - 1]) || i == at - 1);
            } else if i < at {
                assert(after[i] == before[i] && after[j] == before[j - 1]);
            } else if i == at {
                assert(after[j] == before[j - 1]);
                assert(!ends_no_later(before[j - 1], last));
            } else {
                assert(after[i] == before[i - 1] && after[j] == before[j - 1]);
            }
        }
    }
}

/// None of `operations` that all ended otherwise ended at `end`.
proof fn lemma_none_ended_at(operations: Seq<OperationView>, end: crate::op_store::Timestamp)
    requires
        forall|i: int|
            0 <= i < operations.len() ==> (#[trigger] operations[i]).metadata.end_time != end,
    ensures
        ended_at(operations, end) == Seq::<OperationView>::empty(),
    decreases operations.len(),
{
    reveal(Seq::filter);
    if operations.len() > 0 {
        let shorter = operations.drop_last();
        assert forall|i: int|
            0 <= i < shorter.len() implies (#[trigger] shorter[i]).metadata.end_time != end by {
            assert(shorter[i] == operations[i]);
        }
        lemma_none_ended_at(shorter, end);
        assert(operations[operations.len() - 1].metadata.end_time != end);
    }
}

/// Ordering leaves the operations that ended together in the order they
/// had.
pub proof fn lemma_ordered_by_end_is_stable(
    operations: Seq<OperationView>,
    end: crate::op_store::Timestamp,
)
    ensures
        ended_at(ordered_by_end(operations), end) == ended_at(operations, end),
    decreases operations.len(),
{
    reveal(Seq::filter);
    if operations.len() > 0 {
        let shorter = operations.drop_last();
        let last = operations.last();
        lemma_ordered_by_end_is_stable(shorter, end);
        let before = ordered_by_end(shorter);
        let at = place_by_end(before, last);
        lemma_place_by_end(before, last);
        lemma_inserted_by_end_at(before, last, at);
        let ahead = before.subrange(0, at);
        let behind = before.subrange(at, before.len() as int);
        let pred = |operation: OperationView| operation.metadata.end_time == end;
        assert(before =~= ahead + behind);
        assert(before.insert(at, last) =~= ahead.push(last) + behind);
        Seq::filter_distributes_over_add(ahead, behind, pred);
        Seq::filter_distributes_over_add(ahead.push(last), behind, pred);
        assert(ahead.push(last).drop_last() =~= ahead);
        if last.metadata.end_time == end {
            assert forall|i: int|
                0 <= i < behind.len() implies (#[trigger] behind[i]).metadata.end_time != end by {
                assert(behind[i] == before[at + i]);
                assert(!ends_no_later(before[at + i], last));
            }
            lemma_none_ended_at(behind, end);
            assert(ahead.filter(pred) + Seq::<OperationView>::empty() =~= ahead.filter(pred));
            assert(ahead.push(last).filter(pred) + Seq::<OperationView>::empty()
                =~= ahead.push(last).filter(pred));
        }
    }
}

/// Operations that ended at different times come out each before the
/// next, and they are the operations that went in.
proof fn lemma_ordered_by_end_strictly(operations: Seq<OperationView>)
    requires
        ends_differ(operations),
    ensures
        is_strictly_ordered_by_end(ordered_by_end(operations)),
        forall|operation: OperationView| #[trigger]
            ordered_by_end(operations).contains(operation) <==> operations.contains(operation),
    decreases operations.len(),
{
    if operations.len() > 0 {
        let shorter = operations.drop_last();
        let last = operations.last();
        assert forall|i: int, j: int| 0 <= i < j < shorter.len() implies !ends_with(
            #[trigger] shorter[i],
            #[trigger] shorter[j],
        ) by {
            assert(shorter[i] == operations[i] && shorter[j] == operations[j]);
        }
        lemma_ordered_by_end_strictly(shorter);
        let before = ordered_by_end(shorter);
        let at = place_by_end(before, last);
        lemma_place_by_end(before, last);
        lemma_inserted_by_end_at(before, last, at);
        let after = before.insert(at, last);
        before.insert_ensures(at, last);
        assert(operations[operations.len() - 1] == last);
        assert forall|operation: OperationView| #[trigger]
            after.contains(operation) implies operations.contains(operation) by {
            let w = choose|w: int| 0 <= w < after.len() && after[w] == operation;
            if w != at {
                let u = if w < at {
                    w
                } else {
                    w - 1
                };
                assert(before[u] == operation);
                assert(before.contains(operation));
                assert(shorter.contains(operation));
                let i = choose|i: int| 0 <= i < shorter.len() && shorter[i] == operation;
                assert(operations[i] == operation);
            }
        }
        assert forall|operation: OperationView|
            operations.contains(operation) implies #[trigger] after.contains(operation) by {
            let i = choose|i: int| 0 <= i < operations.len() && operations[i] == operation;
            if i < shorter.len() {
                assert(shorter[i] == operation);
                assert(shorter.contains(operation));
                assert(before.contains(operation));
                let u = choose|u: int| 0 <= u < before.len() && before[u] == operation;
                if u < at {
                    assert(after[u] == operation);
                } else {
                    assert(after[u + 1] == operation);
                }
            } else {
                assert(after[at] == operation);
            }
        }
        assert forall|u: int| 0 <= u < before.len() implies !ends_with(
            #[trigger] before[u],
            last,
        ) && !ends_with(last, before[u]) by {
            assert(before.contains(before[u]));
            assert(shorter.contains(before[u]));
            let i = choose|i: int| 0 <= i < shorter.len() && shorter[i] == before[u];
            assert(operations[i] == before[u]);
            assert(!ends_with(operations[i], operations[operations.len() - 1]));
        }
        assert forall|i: int, j: int| 0 <= i < j < after.len() implies ends_no_later(
            #[trigger] after[i],
            #[trigger] after[j],
        ) && !ends_with(after[i], after[j]) by {
            if j < at {
                assert(after[i] == before[i] && after[j] == before[j]);
            } else if j == at {
                assert(after[i] == before[i]);
                assert(ends_no_later(before[i], before[at - 1]) || i == at - 1);
            } else if i < at {
                assert(after[i] == before[i] && after[j] == before[j - 1]);
            } else if i == at {
                assert(after[j] == before[j - 1]);
                assert(!ends_no_later(before[j - 1], last));
            } else {
                assert(after[i] == before[i - 1] && after[j] == before[j - 1]);
            }
        }
    }
}

/// Two sequences of the same operations, each strictly ordered by end, are
/// the same sequence.
proof fn lemma_strictly_ordered_is_unique(a: Seq<OperationView>, b: Seq<OperationView>)
    requires
        is_strictly_ordered_by_end(a),
        is_strictly_ordered_by_end(b),
        forall|operation: OperationView| a.contains(operation) <==> b.contains(operation),
    ensures
        a == b,
    decreases a.len(),
{
    if a.len() == 0 {
        if b.len() > 0 {
            assert(b.contains(b[0]));
        }
        assert(a =~= b);
    } else {
        let a_last = a[a.len() - 1];
        assert(a.contains(a_last));
        let j = choose|j: int| 0 <= j < b.len() && b[j] == a_last;
        let b_last = b[b.len() - 1];
        assert(b.contains(b_last));
        let i = choose|i: int| 0 <= i < a.len() && a[i] == b_last;
        assert(a_last == b_last) by {
            if i < a.len() - 1 && j < b.len() - 1 {
                assert(ends_no_later(a[i], a[a.len() - 1]) && !ends_with(a[i], a[a.len() - 1]));
                assert(ends_no_later(b[j], b[b.len() - 1]) && !ends_with(b[j], b[b.len() - 1]));
            }
        }
        let a_rest = a.drop_last();
        let b_rest = b.drop_last();
        assert forall|operation: OperationView| a_rest.contains(operation) implies b_rest.contains(
            operation,
        ) by {
            let u = choose|u: int| 0 <= u < a_rest.len() && a_rest[u] == operation;
            assert(a[u] == operation);
            assert(!ends_with(a[u], a[a.len() - 1]));
            assert(a.contains(operation));
            let w = choose|w: int| 0 <= w < b.len() && b[w] == operation;
            assert(b_rest[w] == operation);
        }
        assert forall|operation: OperationView| b_rest.contains(operation) implies a_rest.contains(
            operation,
        ) by {
            let u = choose|u: int| 0 <= u < b_rest.len() && b_rest[u] == operation;
            assert(b[u] == operation);
            assert(!ends_with(b[u], b[b.len() - 1]));
            assert(b.contains(operation));
            let w = choose|w: int| 0 <= w < a.len() && a[w] == operation;
            assert(a_rest[w] == operation);
        }
        assert forall|u: int, w: int| 0 <= u < w < a_rest.len() implies ends_no_later(
            #[trigger] a_rest[u],
            #[trigger] a_rest[w],
        ) && !ends_with(a_rest[u], a_rest[w]) by {
            assert(a_rest[u] == a[u] && a_rest[w] == a[w]);
        }
        assert forall|u: int, w: int| 0 <= u < w < b_rest.len() implies ends_no_later(
            #[trigger] b_rest[u],
            #[trigger] b_rest[w],
        ) && !ends_with(b_rest[u], b_rest[w]) by {
            assert(b_rest[u] == b[u] && b_rest[w] == b[w]);
        }
        lemma_strictly_ordered_is_unique(a_rest, b_rest);
        assert(a =~= a_rest.push(a_last));
        assert(b =~= b_rest.push(b_last));
    }
}

/// The order of divergent heads does not depend on the order in which they
/// were found: where no two of them ended together, the same operations
/// come out in the same order, each ended before the next.
pub proof fn lemma_order_is_determined(a: Seq<OperationView>, b: Seq<OperationView>)
    requires
        ends_differ(a),
        ends_differ(b),
        forall|operation: OperationView| a.contains(operation) <==> b.contains(operation),
    ensures
        ordered_by_end(a) == ordered_by_end(b),
        is_strictly_ordered_by_end(ordered_by_end(a)),
{
    lemma_ordered_by_end_strictly(a);
    lemma_ordered_by_end_strictly(b);
    lemma_strictly_ordered_is_unique(ordered_by_end(a), ordered_by_end(b));
}

/// The marked operations that are no heads are those that are an ancestor
/// of a marked one.
pub proof fn lemma_ancestors_among(
    log: Seq<OperationView>,
    ids: Seq<Seq<u8>>,
    among: Seq<Seq<u8>>,
)
    ensures
        forall|id: Seq<u8>| #[trigger]
            ancestors_among(log, ids, among).contains(id) <==> among.contains(id)
                && crate::dag_walk::is_ancestor_of_any(log, ids, id),
    decreases among.len(),
{
    reveal(Seq::filter);
    if among.len() > 0 {
        let shorter = among.drop_last();
        let last = among.last();
        lemma_ancestors_among(log, ids, shorter);
        let before = ancestors_among(log, ids, shorter);
        let now = ancestors_among(log, ids, among);
        assert(among[among.len() - 1] == last);
        assert forall|id: Seq<u8>| #[trigger] now.contains(id) implies among.contains(id)
            && crate::dag_walk::is_ancestor_of_any(log, ids, id) by {
            let w = choose|w: int| 0 <= w < now.len() && now[w] == id;
            if w < before.len() {
                assert(before[w] == id);
                assert(before.contains(id));
                let i = choose|i: int| 0 <= i < shorter.len() && shorter[i] == id;
                assert(among[i] == id);
            }
        }
        assert forall|id: Seq<u8>|
            among.contains(id) && crate::dag_walk::is_ancestor_of_any(
                log,
                ids,
                id,
            ) implies #[trigger] now.contains(id) by {
            let i = choose|i: int| 0 <= i < among.len() && among[i] == id;
            if i < shorter.len() {
                assert(shorter[i] == id);
                assert(shorter.contains(id));
                assert(before.contains(id));
                let w = choose|w: int| 0 <= w < before.len() && before[w] == id;
                assert(now[w] == id);
            } else {
                assert(now[before.len() as int] == id);
            }
        }
    }
}

/// The record that is needed and not there is one of an operation that the
/// resolution comes to, and none is needed just when the operations can be
/// resolved.
pub proof fn lemma_needed_record(log: Seq<OperationView>, ids: Seq<Seq<u8>>)
    ensures
        needed_record(log, ids) is None <==> can_resolve(log, ids),
        needed_record(log, ids) matches Some(id) ==> crate::dag_walk::is_reached(log, ids, id)
            && !crate::operation::has_record(log, id),
{
    crate::dag_walk::lemma_missing_record(log, ids);
    if ids.len() == 1 {
        assert(ids.contains(ids[0]));
    }
}

/// Where the ancestors are the same, those among `among` are the same.
proof fn lemma_ancestors_among_in_more(
    log: Seq<OperationView>,
    more: Seq<OperationView>,
    ids: Seq<Seq<u8>>,
    among: Seq<Seq<u8>>,
)
    requires
        forall|id: Seq<u8>| #[trigger]
            crate::dag_walk::is_ancestor_of_any(more, ids, id)
                <==> crate::dag_walk::is_ancestor_of_any(log, ids, id),
    ensures
        ancestors_among(more, ids, among) == ancestors_among(log, ids, among),
    decreases among.len(),
{
    reveal(Seq::filter);
    if among.len() > 0 {
        lemma_ancestors_among_in_more(log, more, ids, among.drop_last());
        assert(crate::dag_walk::is_ancestor_of_any(more, ids, among.last())
            <==> crate::dag_walk::is_ancestor_of_any(log, ids, among.last()));
    }
}

/// Records that are not needed do not matter: where the operations of
/// `ids` can be resolved with the records `log`, they can with any records
/// that `log` is a part of, to the same heads and with the same operations
/// that are no heads.
pub proof fn lemma_resolved_in_more(
    log: Seq<OperationView>,
    more: Seq<OperationView>,
    ids: Seq<Seq<u8>>,
)
    requires
        crate::dag_walk::is_part_of(log, more),
        crate::operation::unique_ids(more),
        needed_record(log, ids) is None,
    ensures
        needed_record(more, ids) is None,
        resolved_heads(more, ids) == resolved_heads(log, ids),
        pruned_heads(more, ids) == pruned_heads(log, ids),
{
    if ids.len() == 1 {
        crate::dag_walk::lemma_record_in_more(log, more, ids[0]);
    } else {
        crate::dag_walk::lemma_missing_record(log, ids);
        crate::dag_walk::lemma_walk_in_more(log, more, ids);
        crate::dag_walk::lemma_missing_record(more, ids);
        lemma_ancestors_among_in_more(log, more, ids, ids);
    }
}

} // verus!
