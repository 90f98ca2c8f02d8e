//! Operations, and the operations that have been read from the store.

use vstd::prelude::*;

use crate::op_store::{OperationId, OperationMetadata, ViewId};

verus! {

/// What an operation is, as plain data.
pub struct OperationView {
    pub id: Seq<u8>,
    pub view_id: Seq<u8>,
    pub parents: Seq<Seq<u8>>,
    pub metadata: OperationMetadata,
}

/// One operation of the log: its id, the view it leads to, the operations
/// it was made on top of, and when it was made.
#[derive(Debug, PartialEq, Eq)]
pub struct Operation {
    id: OperationId,
    view_id: ViewId,
    parents: Vec<OperationId>,
    metadata: OperationMetadata,
}

impl View for Operation {
    type V = OperationView;

    closed spec fn view(&self) -> OperationView {
        OperationView {
            id: self.id@,
            view_id: self.view_id@,
            parents: crate::op_store::id_seq(self.parents@),
            metadata: self.metadata,
        }
    }
}

impl Clone for Operation {
    fn clone(&self) -> (copy: Self)
        ensures
            copy@ == self@,
    {
        let parents = self.parents.clone();
        assert(crate::op_store::id_seq(parents@) =~= crate::op_store::id_seq(self.parents@));
        Operation {
            id: self.id.clone(),
            view_id: self.view_id.clone(),
            parents,
            metadata: self.metadata,
        }
    }
}

impl Operation {
    /// The operation with the given id, view, parents and metadata.
    pub fn new(
        id: OperationId,
        view_id: ViewId,
        parents: Vec<OperationId>,
        metadata: OperationMetadata,
    ) -> (operation: Self)
        ensures
            operation@ == (OperationView {
                id: id@,
                view_id: view_id@,
                parents: crate::op_store::id_seq(parents@),
                metadata,
            }),
    {
        Operation { id, view_id, parents, metadata }
    }

    /// The operation's id.
    pub fn id(&self) -> (id: &OperationId)
        ensures
            id@ == self@.id,
    {
        &self.id
    }

    /// The id of the view that the operation leads to.
    pub fn view_id(&self) -> (view_id: &ViewId)
        ensures
            view_id@ == self@.view_id,
    {
        &self.view_id
    }

    /// The ids of the operations that this one was made on top of.
    pub fn parent_ids(&self) -> (parents: &Vec<OperationId>)
        ensures
            crate::op_store::id_seq(parents@) == self@.parents,
    {
        &self.parents
    }

    /// When the operation was begun and when it was done.
    pub fn metadata(&self) -> (metadata: OperationMetadata)
        ensures
            metadata == self@.metadata,
    {
        self.metadata
    }
}

/// The views of `operations`, in their order.
pub open spec fn operation_seq(operations: Seq<Operation>) -> Seq<OperationView> {
    operations.map_values(|operation: Operation| operation@)
}

/// Whether `log` holds a record of the operation `id`.
pub open spec fn has_record(log: Seq<OperationView>, id: Seq<u8>) -> bool {
    exists|i: int| 0 <= i < log.len() && (#[trigger] log[i]).id == id
}

/// Whether no two records of `log` have the same id.
pub open spec fn unique_ids(log: Seq<OperationView>) -> bool {
    forall|i: int, j: int|
        0 <= i < j < log.len() ==> (#[trigger] log[i]).id != (#[trigger] log[j]).id
}

/// The record that `log` holds of the operation `id`.
pub open spec fn record_of(log: Seq<OperationView>, id: Seq<u8>) -> OperationView {
    log[choose|i: int| 0 <= i < log.len() && (#[trigger] log[i]).id == id]
}

/// The records that `log` holds of `ids`, in their order.
pub open spec fn records_of(log: Seq<OperationView>, ids: Seq<Seq<u8>>) -> Seq<OperationView> {
    ids.map_values(|id: Seq<u8>| record_of(log, id))
}

/// `log` with the record `operation`, unless it holds a record of that id.
pub open spec fn recorded(log: Seq<OperationView>, operation: OperationView) -> Seq<OperationView> {
    if has_record(log, operation.id) {
        log
    } else {
        log.push(operation)
    }
}

/// The operations read from the store so far, one record for each id.
#[derive(Debug)]
pub struct OperationLog {
    operations: Vec<Operation>,
}

impl View for OperationLog {
    type V = Seq<OperationView>;

    closed spec fn view(&self) -> Seq<OperationView> {
        operation_seq(self.operations@)
    }
}

impl OperationLog {
    #[verifier::type_invariant]
    spec fn one_record_per_id(self) -> bool {
        unique_ids(operation_seq(self.operations@))
    }

    /// A log without records.
    pub fn new() -> (log: Self)
        ensures
            log@ == Seq::<OperationView>::empty(),
    {
        let log = OperationLog { operations: Vec::new() };
        assert(operation_seq(log.operations@) =~= Seq::<OperationView>::empty());
        log
    }

    /// The number of records.
    pub fn len(&self) -> (len: usize)
        ensures
            len == self@.len(),
            unique_ids(self@),
    {
        proof {
            use_type_invariant(self);
        }
        self.operations.len()
    }

    /// The record at `index`.
    pub fn get(&self, index: usize) -> (operation: &Operation)
        requires
            index < self@.len(),
        ensures
            operation@ == self@[index as int],
    {
        &self.operations[index]
    }

    /// Where the record of the operation `id` stands, if there is one.
    pub fn position(&self, id: &OperationId) -> (position: Option<usize>)
        ensures
            unique_ids(self@),
            position is None <==> !has_record(self@, id@),
            position matches Some(i) ==> i < self@.len() && self@[i as int].id == id@,
    {
        proof {
            use_type_invariant(self);
        }
        let mut i: usize = 0;
        while i < self.operations.len()
            invariant
                i <= self.operations.len(),
                self@.len() == self.operations.len(),
                unique_ids(self@),
                forall|k: int| 0 <= k < i ==> (#[trigger] self@[k]).id != id@,
            decreases self.operations.len() - i,
        {
            assert(self@[i as int] == self.operations@[i as int]@);
            if *self.operations[i].id() == *id {
                return Some(i);
            }
            i += 1;
        }
        None
    }

    /// The record of the operation `id`, if there is one.
    pub fn read_operation(&self, id: &OperationId) -> (operation: Option<Operation>)
        ensures
            operation is None <==> !has_record(self@, id@),
            operation matches Some(op) ==> op@ == record_of(self@, id@) && op@.id == id@,
    {
        match self.position(id) {
            Some(i) => {
                proof {
                    lemma_record_of(self@, i as int);
                }
                Some(self.operations[i].clone())
            },
            None => None,
        }
    }

    /// Adds the record `operation`, unless the log holds one of that id
    /// already: an id stands for one content.
    pub fn record(&mut self, operation: Operation)
        ensures
            unique_ids(final(self)@),
            final(self)@ == recorded(old(self)@, operation@),
    {
        proof {
            use_type_invariant(&*self);
        }
        if self.position(operation.id()).is_none() {
            let ghost before = self.operations@;
            let mut operations = Vec::new();
            std::mem::swap(&mut operations, &mut self.operations);
            operations.push(operation);
            assert(operation_seq(operations@) =~= operation_seq(before).push(operation@));
            self.operations = operations;
        }
    }
}

/// Where no two records have the same id, the record of an id is the one
/// that has it.
pub proof fn lemma_record_of(log: Seq<OperationView>, at: int)
    requires
        unique_ids(log),
        0 <= at < log.len(),
    ensures
        record_of(log, log[at].id) == log[at],
{
    let chosen = choose|i: int| 0 <= i < log.len() && (#[trigger] log[i]).id == log[at].id;
    assert(chosen == at);
}

} // verus!
