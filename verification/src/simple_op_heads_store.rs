//! The heads of the operation log, kept as marker files in a directory.
//!
//! A head is marked by an empty file named by the lowercase hexadecimal form
//! of the operation's id. The directory holds other entries too, such as
//! the lock file, so an entry whose name is no hexadecimal form marks
//! nothing. The stores here hold the names of a directory's entries; the
//! directory itself is written by whoever holds the store.

use vstd::prelude::*;

use crate::op_heads_store::{OpHeadResolutionError, OpHeads};
use crate::op_store::{OperationId, OperationMetadata, ViewId};
use crate::operation::{Operation, OperationLog, OperationView};

verus! {

/// The name of the directory of markers within the directory of a store.
pub const OP_HEADS_DIR: &'static str = "simple_op_heads";

/// The name of the lock file within the directory of markers.
pub const LOCK_FILE: &'static str = "lock";

/// The views of `names`, in their order.
pub open spec fn name_seq(names: Seq<String>) -> Seq<Seq<char>> {
    names.map_values(|name: String| name@)
}

/// The ids of `operations`, in their order.
pub open spec fn operation_ids(operations: Seq<OperationView>) -> Seq<Seq<u8>> {
    operations.map_values(|operation: OperationView| operation.id)
}

/// The names of a listing, each once, in the order in which the listing
/// first gives them.
pub open spec fn listed(entries: Seq<Seq<char>>) -> Seq<Seq<char>>
    decreases entries.len(),
{
    if entries.len() == 0 {
        entries
    } else {
        with_name(listed(entries.drop_last()), entries.last())
    }
}

/// `names` with `name` among them: at the end, unless it is there already.
pub open spec fn with_name(names: Seq<Seq<char>>, name: Seq<char>) -> Seq<Seq<char>> {
    if names.contains(name) {
        names
    } else {
        names.push(name)
    }
}

/// `names` without `name`, the others in their order.
pub open spec fn without_name(names: Seq<Seq<char>>, name: Seq<char>) -> Seq<Seq<char>> {
    names.filter(|other: Seq<char>| other != name)
}

/// `names` with the markers of `ids` among them.
pub open spec fn with_ids(names: Seq<Seq<char>>, ids: Seq<Seq<u8>>) -> Seq<Seq<char>>
    decreases ids.len(),
{
    if ids.len() == 0 {
        names
    } else {
        with_name(with_ids(names, ids.drop_last()), crate::hex_name::hex_of(ids.last()))
    }
}

/// `names` without the markers of `ids`, the others in their order.
pub open spec fn without_ids(names: Seq<Seq<char>>, ids: Seq<Seq<u8>>) -> Seq<Seq<char>> {
    names.filter(|name: Seq<char>| !is_marker_of_any(ids, name))
}

/// The names of `names` that are not among `others`, in their order.
pub open spec fn names_not_in(names: Seq<Seq<char>>, others: Seq<Seq<char>>) -> Seq<Seq<char>> {
    names.filter(|name: Seq<char>| !others.contains(name))
}

/// The ids that the entries `names` mark as heads: for each name that is a
/// hexadecimal form, in the order of `names`, the bytes it stands for.
pub open spec fn head_ids(names: Seq<Seq<char>>) -> Seq<Seq<u8>> {
    names.filter(|name: Seq<char>| crate::hex_name::is_hex(name)).map_values(
        |name: Seq<char>| crate::hex_name::bytes_of(name),
    )
}

/// Whether an entry of `names` marks the operation `id`.
pub open spec fn marks(names: Seq<Seq<char>>, id: Seq<u8>) -> bool {
    exists|i: int|
        0 <= i < names.len() && crate::hex_name::is_hex(#[trigger] names[i])
            && crate::hex_name::bytes_of(names[i]) == id
}

/// Whether one of `ids` has the marker `name`.
pub open spec fn is_marker_of_any(ids: Seq<Seq<u8>>, name: Seq<char>) -> bool {
    exists|k: int| 0 <= k < ids.len() && crate::hex_name::hex_of(#[trigger] ids[k]) == name
}

/// Whether the markers among `names` are written in lowercase, as
/// [`InnerSimpleOpHeadsStore::add_op_head`] writes them.
pub open spec fn markers_in_lowercase(names: Seq<Seq<char>>) -> bool {
    forall|i: int|
        0 <= i < names.len() && crate::hex_name::is_hex(#[trigger] names[i])
            ==> crate::hex_name::is_lower_hex(names[i])
}

/// The entries of the directory of markers after
/// [`SimpleOpHeadsStore::load`]: those that it had, if it existed, and the
/// markers of the operations that `dir` marked.
pub open spec fn loaded_markers(dir: Seq<Seq<char>>, op_heads_dir: Option<Seq<Seq<char>>>) -> Seq<
    Seq<char>,
> {
    with_ids(
        match op_heads_dir {
            Some(markers) => markers,
            None => Seq::empty(),
        },
        head_ids(dir),
    )
}

/// The entries of the directory of a store after
/// [`SimpleOpHeadsStore::load`]: with the directory of markers among them,
/// and without markers.
pub open spec fn loaded_dir(dir: Seq<Seq<char>>) -> Seq<Seq<char>> {
    without_ids(with_name(dir, OP_HEADS_DIR@), head_ids(dir))
}

/// The heads that `names` marks are those that the names before the last
/// mark, and the one that the last marks if it is a hexadecimal form.
proof fn lemma_head_ids_by_last(names: Seq<Seq<char>>)
    ensures
        names.len() == 0 ==> head_ids(names) == Seq::<Seq<u8>>::empty(),
        names.len() > 0 ==> head_ids(names) == if crate::hex_name::is_hex(names.last()) {
            head_ids(names.drop_last()).push(crate::hex_name::bytes_of(names.last()))
        } else {
            head_ids(names.drop_last())
        },
{
    reveal(Seq::filter);
    if names.len() > 0 {
        if crate::hex_name::is_hex(names.last()) {
            assert(head_ids(names) =~= head_ids(names.drop_last()).push(
                crate::hex_name::bytes_of(names.last()),
            ));
        }
    } else {
        assert(head_ids(names) =~= Seq::<Seq<u8>>::empty());
    }
}

/// Taking the markers of the ids before the last away, and then that of the
/// last, is taking the markers of all of them away.
proof fn lemma_without_ids_by_last(names: Seq<Seq<char>>, ids: Seq<Seq<u8>>)
    ensures
        ids.len() == 0 ==> without_ids(names, ids) == names,
        ids.len() > 0 ==> without_ids(names, ids) == without_name(
            without_ids(names, ids.drop_last()),
            crate::hex_name::hex_of(ids.last()),
        ),
    decreases names.len(),
{
    reveal(Seq::filter);
    if names.len() > 0 {
        let shorter = names.drop_last();
        let last = names.last();
        lemma_without_ids_by_last(shorter, ids);
        if ids.len() > 0 {
            let marker = crate::hex_name::hex_of(ids.last());
            let fewer = ids.drop_last();
            assert(ids[ids.len() - 1] == ids.last());
            if is_marker_of_any(fewer, last) {
                let k = choose|k: int|
                    0 <= k < fewer.len() && crate::hex_name::hex_of(#[trigger] fewer[k]) == last;
                assert(ids[k] == fewer[k]);
            }
            if is_marker_of_any(ids, last) && last != marker {
                let k = choose|k: int|
                    0 <= k < ids.len() && crate::hex_name::hex_of(#[trigger] ids[k]) == last;
                assert(fewer[k] == ids[k]);
            }
            assert(is_marker_of_any(ids, last) <==> is_marker_of_any(fewer, last) || last
                == marker);
            let kept = without_ids(shorter, fewer);
            if !is_marker_of_any(fewer, last) {
                assert(kept.push(last).drop_last() =~= kept);
            }
        }
    }
}

/// Names that are there once each are so with one more among them.
proof fn lemma_with_name_distinct(names: Seq<Seq<char>>, name: Seq<char>)
    requires
        names.no_duplicates(),
    ensures
        with_name(names, name).no_duplicates(),
        with_name(names, name).contains(name),
{
    if !names.contains(name) {
        assert(names.push(name)[names.len() as int] == name);
    }
}

/// What is left without a name: the other names, as they were.
proof fn lemma_without_name(names: Seq<Seq<char>>, name: Seq<char>)
    ensures
        !without_name(names, name).contains(name),
        forall|other: Seq<char>|
            other != name ==> (#[trigger] without_name(names, name).contains(other)
                <==> names.contains(other)),
        names.no_duplicates() ==> without_name(names, name).no_duplicates(),
        !names.contains(name) ==> without_name(names, name) == names,
        without_name(names, name).len() <= names.len(),
    decreases names.len(),
{
    reveal(Seq::filter);
    if names.len() > 0 {
        let shorter = names.drop_last();
        let last = names.last();
        let before = without_name(shorter, name);
        let after = without_name(names, name);
        lemma_without_name(shorter, name);
        assert forall|other: Seq<char>| other != name implies (#[trigger] after.contains(other)
            <==> names.contains(other)) by {
            if names.contains(other) {
                let i = choose|i: int| 0 <= i < names.len() && names[i] == other;
                if i < shorter.len() {
                    assert(shorter[i] == other);
                    assert(before.contains(other));
                    let w = choose|w: int| 0 <= w < before.len() && before[w] == other;
                    assert(after[w] == other);
                } else {
                    assert(after[before.len() as int] == other);
                }
            }
            if after.contains(other) {
                let w = choose|w: int| 0 <= w < after.len() && after[w] == other;
                if w < before.len() {
                    assert(before[w] == other);
                    assert(before.contains(other));
                    assert(shorter.contains(other));
                    let i = choose|i: int| 0 <= i < shorter.len() && shorter[i] == other;
                    assert(names[i] == other);
                } else {
                    assert(names[names.len() - 1] == other);
                }
            }
        }
        if after.contains(name) {
            let w = choose|w: int| 0 <= w < after.len() && after[w] == name;
            if w < before.len() {
                assert(before[w] == name);
                assert(before.contains(name));
            }
        }
        if names.no_duplicates() {
            assert(shorter.no_duplicates());
            if last != name {
                if before.contains(last) {
                    assert(shorter.contains(last));
                    let i = choose|i: int| 0 <= i < shorter.len() && shorter[i] == last;
                    assert(names[i] == names[names.len() - 1]);
                }
            }
        }
        if !names.contains(name) {
            assert(names[names.len() - 1] != name);
            if shorter.contains(name) {
                let i = choose|i: int| 0 <= i < shorter.len() && shorter[i] == name;
                assert(names[i] == name);
            }
            assert(before == shorter);
            assert(after =~= names);
        }
    }
}

/// Taking out the one entry that has a name is removing that name.
proof fn lemma_without_name_at(names: Seq<Seq<char>>, at: int)
    requires
        names.no_duplicates(),
        0 <= at < names.len(),
    ensures
        without_name(names, names[at]) == names.remove(at),
    decreases names.len(),
{
    reveal(Seq::filter);
    let shorter = names.drop_last();
    let name = names[at];
    if at == names.len() - 1 {
        if shorter.contains(name) {
            let i = choose|i: int| 0 <= i < shorter.len() && shorter[i] == name;
            assert(names[i] == name);
        }
        lemma_without_name(shorter, name);
        assert(names.remove(at) =~= shorter);
    } else {
        lemma_without_name_at(shorter, at);
        assert(names.last() != name);
        assert(shorter.remove(at).push(names.last()) =~= names.remove(at));
    }
}

/// The names of the entries of a directory of markers.
#[derive(Debug)]
pub struct InnerSimpleOpHeadsStore {
    entries: Vec<String>,
}

impl View for InnerSimpleOpHeadsStore {
    type V = Seq<Seq<char>>;

    closed spec fn view(&self) -> Seq<Seq<char>> {
        name_seq(self.entries@)
    }
}

impl Clone for InnerSimpleOpHeadsStore {
    fn clone(&self) -> (copy: Self)
        ensures
            copy@ == self@,
    {
        proof {
            use_type_invariant(self);
        }
        let entries = self.entries.clone();
        assert(name_seq(entries@) =~= name_seq(self.entries@));
        InnerSimpleOpHeadsStore { entries }
    }
}

/// Where `name` stands among `entries`, if it does.
fn find_name(entries: &Vec<String>, name: &String) -> (at: Option<usize>)
    ensures
        at is None <==> !name_seq(entries@).contains(name@),
        at matches Some(i) ==> i < entries.len() && name_seq(entries@)[i as int] == name@,
{
    let mut i: usize = 0;
    while i < entries.len()
        invariant
            i <= entries.len(),
            forall|k: int| 0 <= k < i ==> name_seq(entries@)[k] != name@,
        decreases entries.len() - i,
    {
        assert(name_seq(entries@)[i as int] == entries[i as int]@);
        if entries[i] == *name {
            return Some(i);
        }
        i += 1;
    }
    None
}

impl InnerSimpleOpHeadsStore {
    #[verifier::type_invariant]
    spec fn one_entry_per_name(self) -> bool {
        name_seq(self.entries@).no_duplicates()
    }

    /// The store of an empty directory.
    pub fn new() -> (store: Self)
        ensures
            store@ == Seq::<Seq<char>>::empty(),
    {
        let store = InnerSimpleOpHeadsStore { entries: Vec::new() };
        assert(name_seq(store.entries@) =~= Seq::<Seq<char>>::empty());
        store
    }

    /// The store of a directory whose listing gave `entries`.
    pub fn from_entries(entries: Vec<String>) -> (store: Self)
        ensures
            store@ == listed(name_seq(entries@)),
            store@.no_duplicates(),
    {
        let ghost given = name_seq(entries@);
        let mut kept: Vec<String> = Vec::new();
        let mut i: usize = 0;
        assert(given.take(0) =~= Seq::<Seq<char>>::empty());
        assert(name_seq(kept@) =~= Seq::<Seq<char>>::empty());
        while i < entries.len()
            invariant
                i <= entries.len(),
                given == name_seq(entries@),
                name_seq(kept@) == listed(given.take(i as int)),
                name_seq(kept@).no_duplicates(),
            decreases entries.len() - i,
        {
            let ghost before = name_seq(kept@);
            proof {
                assert(given.take(i + 1).drop_last() =~= given.take(i as int));
                assert(given.take(i + 1).last() == entries[i as int]@);
                lemma_with_name_distinct(before, entries[i as int]@);
            }
            if find_name(&kept, &entries[i]).is_none() {
                kept.push(entries[i].clone());
                assert(name_seq(kept@) =~= before.push(entries[i as int]@));
            }
            i += 1;
        }
        assert(given.take(i as int) =~= given);
        InnerSimpleOpHeadsStore { entries: kept }
    }

    /// The names of the entries.
    pub fn entries(&self) -> (entries: Vec<String>)
        ensures
            name_seq(entries@) == self@,
            self@.no_duplicates(),
    {
        proof {
            use_type_invariant(self);
        }
        let entries = self.entries.clone();
        assert(name_seq(entries@) =~= name_seq(self.entries@));
        entries
    }

    /// The entries that are not among those of `other`, in their order.
    fn entries_not_in(&self, other: &InnerSimpleOpHeadsStore) -> (entries: Vec<String>)
        ensures
            name_seq(entries@) == names_not_in(self@, other@),
    {
        let ghost names = name_seq(self.entries@);
        let mut entries: Vec<String> = Vec::new();
        let mut i: usize = 0;
        proof {
            reveal(Seq::filter);
            assert(names.take(0) =~= Seq::<Seq<char>>::empty());
            assert(name_seq(entries@) =~= Seq::<Seq<char>>::empty());
        }
        while i < self.entries.len()
            invariant
                i <= self.entries.len(),
                names == name_seq(self.entries@),
                name_seq(entries@) == names_not_in(names.take(i as int), other@),
            decreases self.entries.len() - i,
        {
            let ghost before = name_seq(entries@);
            proof {
                reveal(Seq::filter);
                assert(names.take(i + 1).drop_last() =~= names.take(i as int));
                assert(names.take(i + 1).last() == self.entries[i as int]@);
            }
            if find_name(&other.entries, &self.entries[i]).is_none() {
                entries.push(self.entries[i].clone());
                assert(name_seq(entries@) =~= before.push(self.entries[i as int]@));
            }
            i += 1;
        }
        assert(names.take(i as int) =~= names);
        entries
    }

    /// What has to be done to a directory with these entries to give it
    /// the entries of `after`: the names to make entries for, and the names
    /// of the entries to take away.
    pub fn changes(&self, after: &InnerSimpleOpHeadsStore) -> (changes: (Vec<String>, Vec<String>))
        ensures
            name_seq(changes.0@) == names_not_in(after@, self@),
            name_seq(changes.1@) == names_not_in(self@, after@),
    {
        (after.entries_not_in(self), self.entries_not_in(after))
    }

    /// The store of a new directory of markers, whose one head is the
    /// operation that the log begins with, and that operation: it has the
    /// id under which the operation store keeps it, and no parents.
    pub fn init(
        root_operation_id: OperationId,
        root_view_id: ViewId,
        operation_metadata: OperationMetadata,
    ) -> (made: (Self, Operation))
        ensures
            made.0@ == seq![crate::hex_name::hex_of(root_operation_id@)],
            made.1@ == (OperationView {
                id: root_operation_id@,
                view_id: root_view_id@,
                parents: Seq::empty(),
                metadata: operation_metadata,
            }),
    {
        let mut op_heads_store = InnerSimpleOpHeadsStore::new();
        op_heads_store.add_op_head(&root_operation_id);
        let parents: Vec<OperationId> = Vec::new();
        assert(crate::op_store::id_seq(parents@) =~= Seq::<Seq<u8>>::empty());
        let init_operation = Operation::new(
            root_operation_id,
            root_view_id,
            parents,
            operation_metadata,
        );
        assert(op_heads_store@ =~= seq![crate::hex_name::hex_of(root_operation_id@)]);
        (op_heads_store, init_operation)
    }

    /// Adds an entry named `name`, unless there is one.
    fn add_entry(&mut self, name: String)
        ensures
            final(self)@ == with_name(old(self)@, name@),
            final(self)@.no_duplicates(),
    {
        proof {
            use_type_invariant(&*self);
            lemma_with_name_distinct(self@, name@);
        }
        if find_name(&self.entries, &name).is_none() {
            let ghost before = name_seq(self.entries@);
            let mut entries = Vec::new();
            std::mem::swap(&mut entries, &mut self.entries);
            entries.push(name);
            assert(name_seq(entries@) =~= before.push(name@));
            self.entries = entries;
        }
    }

    /// Marks the operation `id` as a head. Nothing changes where it is
    /// marked already.
    pub fn add_op_head(&mut self, id: &OperationId)
        ensures
            final(self)@ == with_name(old(self)@, crate::hex_name::hex_of(id@)),
            final(self)@.no_duplicates(),
    {
        self.add_entry(id.hex());
    }

    /// Takes the marker of the operation `id` away. Nothing changes where
    /// it is not marked.
    pub fn remove_op_head(&mut self, id: &OperationId)
        ensures
            final(self)@ == without_name(old(self)@, crate::hex_name::hex_of(id@)),
            final(self)@.no_duplicates(),
    {
        proof {
            use_type_invariant(&*self);
            lemma_without_name(self@, crate::hex_name::hex_of(id@));
        }
        let name = id.hex();
        match find_name(&self.entries, &name) {
            Some(at) => {
                let ghost before = name_seq(self.entries@);
                let mut entries = Vec::new();
                std::mem::swap(&mut entries, &mut self.entries);
                entries.remove(at);
                proof {
                    lemma_without_name_at(before, at as int);
                    assert(name_seq(entries@) =~= before.remove(at as int));
                }
                self.entries = entries;
            },
            None => {},
        }
    }

    /// The operations that are marked as heads: one for each entry whose
    /// name is a hexadecimal form, in the order of the entries.
    pub fn get_op_heads(&self) -> (op_heads: Vec<OperationId>)
        ensures
            crate::op_store::id_seq(op_heads@) == head_ids(self@),
    {
        let ghost names = name_seq(self.entries@);
        let mut op_heads: Vec<OperationId> = Vec::new();
        let mut i: usize = 0;
        proof {
            lemma_head_ids_by_last(names.take(0));
            assert(crate::op_store::id_seq(op_heads@) =~= Seq::<Seq<u8>>::empty());
        }
        while i < self.entries.len()
            invariant
                i <= self.entries.len(),
                names == name_seq(self.entries@),
                crate::op_store::id_seq(op_heads@) == head_ids(names.take(i as int)),
            decreases self.entries.len() - i,
        {
            let ghost before = crate::op_store::id_seq(op_heads@);
            proof {
                lemma_head_ids_by_last(names.take(i + 1));
                assert(names.take(i + 1).drop_last() =~= names.take(i as int));
                assert(names.take(i + 1).last() == self.entries[i as int]@);
            }
            match OperationId::try_from_hex(self.entries[i].as_str()) {
                Some(op_head) => {
                    op_heads.push(op_head);
                    assert(crate::op_store::id_seq(op_heads@) =~= before.push(op_head@));
                },
                None => {},
            }
            i += 1;
        }
        assert(names.take(i as int) =~= names);
        op_heads
    }

    /// Takes the markers of the operations `ids` away.
    pub fn remove_op_heads(&mut self, ids: &Vec<OperationId>)
        ensures
            final(self)@ == without_ids(old(self)@, crate::op_store::id_seq(ids@)),
            final(self)@.no_duplicates(),
    {
        proof {
            use_type_invariant(&*self);
        }
        let ghost all = crate::op_store::id_seq(ids@);
        let mut k: usize = 0;
        proof {
            lemma_without_ids_by_last(self@, all.take(0));
        }
        while k < ids.len()
            invariant
                k <= ids.len(),
                all == crate::op_store::id_seq(ids@),
                self@ == without_ids(old(self)@, all.take(k as int)),
                self@.no_duplicates(),
            decreases ids.len() - k,
        {
            proof {
                lemma_without_ids_by_last(old(self)@, all.take(k + 1));
                assert(all.take(k + 1).drop_last() =~= all.take(k as int));
                assert(all.take(k + 1).last() == ids[k as int]@);
            }
            self.remove_op_head(&ids[k]);
            k += 1;
        }
        assert(all.take(k as int) =~= all);
    }

    /// Takes away the markers of those of `op_heads` that are an ancestor
    /// of another of them, and gives the others, each once, in the order in
    /// which `op_heads` first names them.
    ///
    /// The records are those of `log`, which has to hold the record of
    /// every operation that a walk from `op_heads` comes to. Where it lacks
    /// one, no marker is taken away, and the error names the operation
    /// whose record the walk misses.
    pub fn handle_ancestor_ops(&mut self, op_heads: Vec<Operation>, log: &OperationLog) -> (kept:
        Result<Vec<Operation>, OpHeadResolutionError>)
        ensures
            kept matches Ok(heads) ==> {
                let ids = operation_ids(crate::operation::operation_seq(op_heads@));
                &&& crate::dag_walk::missing_record(log@, ids) is None
                &&& crate::operation::operation_seq(heads@) == crate::operation::records_of(
                    log@,
                    crate::dag_walk::heads_of(log@, ids),
                )
                &&& final(self)@ == without_ids(
                    old(self)@,
                    crate::op_heads_store::ancestors_among(log@, ids, ids),
                )
            },
            kept matches Err(error) ==> {
                let ids = operation_ids(crate::operation::operation_seq(op_heads@));
                &&& final(self)@ == old(self)@
                &&& error matches OpHeadResolutionError::RecordNotFound(id)
                &&& crate::dag_walk::missing_record(log@, ids) == Some(id@)
            },
    {
        let ghost views = crate::operation::operation_seq(op_heads@);
        let mut op_head_ids: Vec<OperationId> = Vec::new();
        let mut k: usize = 0;
        while k < op_heads.len()
            invariant
                k <= op_heads.len(),
                views == crate::operation::operation_seq(op_heads@),
                op_head_ids.len() == k,
                forall|i: int| 0 <= i < k ==> (#[trigger] op_head_ids[i])@ == views[i].id,
            decreases op_heads.len() - k,
        {
            assert(views[k as int] == op_heads[k as int]@);
            op_head_ids.push(op_heads[k].id().clone());
            k += 1;
        }
        assert(crate::op_store::id_seq(op_head_ids@) =~= operation_ids(views));
        match crate::op_heads_store::prune_ancestors(&op_head_ids, log) {
            Ok((heads, pruned)) => {
                self.remove_op_heads(&pruned);
                Ok(heads)
            },
            Err(id) => Err(OpHeadResolutionError::RecordNotFound(id)),
        }
    }

    /// Makes `new_op` a head in place of its parents: marks it, then takes
    /// the markers of its parents away, so that at no time nothing is
    /// marked.
    pub fn finish(&mut self, new_op: &Operation)
        ensures
            final(self)@ == without_ids(
                with_name(old(self)@, crate::hex_name::hex_of(new_op@.id)),
                new_op@.parents,
            ),
            final(self)@.no_duplicates(),
    {
        self.add_op_head(new_op.id());
        self.remove_op_heads(new_op.parent_ids());
    }

    /// Resolves the heads that are marked, with the records of `log`, and
    /// takes away the markers of the operations that are no heads.
    ///
    /// No marked operation is an error. A single one is the head. Of
    /// several, those that are an ancestor of another are no heads, and
    /// their markers go. If one is left, it is the head; else the heads are
    /// divergent, and they are given from the one that ended first to the
    /// one that ended last.
    ///
    /// Where `log` lacks a record that is needed, no marker is taken away,
    /// and the error names the operation whose record is needed and not
    /// there.
    pub fn get_heads(&mut self, log: &OperationLog) -> (resolved: Result<
        OpHeads,
        OpHeadResolutionError,
    >)
        ensures
            match resolved {
                Ok(op_heads) => {
                    &&& head_ids(old(self)@).len() > 0
                    &&& crate::op_heads_store::needed_record(log@, head_ids(old(self)@)) is None
                    &&& op_heads@ == crate::op_heads_store::resolved_heads(
                        log@,
                        head_ids(old(self)@),
                    )
                    &&& final(self)@ == without_ids(
                        old(self)@,
                        crate::op_heads_store::pruned_heads(log@, head_ids(old(self)@)),
                    )
                },
                Err(OpHeadResolutionError::NoHeads) => {
                    &&& head_ids(old(self)@).len() == 0
                    &&& final(self)@ == old(self)@
                },
                Err(OpHeadResolutionError::RecordNotFound(id)) => {
                    &&& head_ids(old(self)@).len() > 0
                    &&& crate::op_heads_store::needed_record(log@, head_ids(old(self)@)) == Some(
                        id@,
                    )
                    &&& final(self)@ == old(self)@
                },
            },
    {
        let op_head_ids = self.get_op_heads();
        match crate::op_heads_store::resolve_op_heads(&op_head_ids, log) {
            Ok((op_heads, pruned)) => {
                self.remove_op_heads(&pruned);
                Ok(op_heads)
            },
            Err(error) => Err(error),
        }
    }
}

/// The store of the heads of the operation log.
#[derive(Debug)]
pub struct SimpleOpHeadsStore {
    store: InnerSimpleOpHeadsStore,
}

impl View for SimpleOpHeadsStore {
    type V = Seq<Seq<char>>;

    closed spec fn view(&self) -> Seq<Seq<char>> {
        self.store@
    }
}

impl Clone for SimpleOpHeadsStore {
    fn clone(&self) -> (copy: Self)
        ensures
            copy@ == self@,
    {
        SimpleOpHeadsStore { store: self.store.clone() }
    }
}

impl SimpleOpHeadsStore {
    /// The store of a new directory of markers, whose one head is the
    /// operation that the log begins with, and that operation: it has the
    /// id under which the operation store keeps it, and no parents.
    pub fn init(
        root_operation_id: OperationId,
        root_view_id: ViewId,
        operation_metadata: OperationMetadata,
    ) -> (made: (Self, Operation))
        ensures
            made.0@ == seq![crate::hex_name::hex_of(root_operation_id@)],
            head_ids(made.0@) == seq![root_operation_id@],
            made.1@ == (OperationView {
                id: root_operation_id@,
                view_id: root_view_id@,
                parents: Seq::empty(),
                metadata: operation_metadata,
            }),
    {
        let (inner, init_op) = InnerSimpleOpHeadsStore::init(
            root_operation_id,
            root_view_id,
            operation_metadata,
        );
        proof {
            let name = crate::hex_name::hex_of(root_operation_id@);
            crate::hex_name::lemma_bytes_of_hex_of(root_operation_id@);
            let one = seq![name];
            lemma_head_ids_by_last(one);
            lemma_head_ids_by_last(one.drop_last());
            assert(one.last() == name);
            assert(head_ids(one) =~= seq![root_operation_id@]);
        }
        (SimpleOpHeadsStore { store: inner }, init_op)
    }

    /// The store of the heads that are kept under the directory `dir`.
    ///
    /// `op_heads_dir` holds the entries of the directory of markers within
    /// `dir`, if it exists; if not, it is made. Markers that are entries of
    /// `dir` itself, where they all were once, are moved: each operation
    /// that `dir` marks is marked in the directory of markers, and no
    /// longer in `dir`. So markers that an earlier move left behind are
    /// moved now.
    pub fn load(
        dir: &mut InnerSimpleOpHeadsStore,
        op_heads_dir: Option<InnerSimpleOpHeadsStore>,
    ) -> (store: Self)
        ensures
            store@ == loaded_markers(
                old(dir)@,
                match op_heads_dir {
                    Some(markers) => Some(markers@),
                    None => None,
                },
            ),
            final(dir)@ == loaded_dir(old(dir)@),
    {
        let mut new_store = match op_heads_dir {
            Some(markers) => markers,
            None => InnerSimpleOpHeadsStore::new(),
        };
        let ghost had = new_store@;
        let op_head_ids = dir.get_op_heads();
        let ghost all = crate::op_store::id_seq(op_head_ids@);
        let ghost made = with_name(old(dir)@, OP_HEADS_DIR@);
        dir.add_entry(OP_HEADS_DIR.to_owned());
        let mut k: usize = 0;
        proof {
            lemma_without_ids_by_last(made, all.take(0));
            assert(all.take(0) =~= Seq::<Seq<u8>>::empty());
        }
        while k < op_head_ids.len()
            invariant
                k <= op_head_ids.len(),
                all == crate::op_store::id_seq(op_head_ids@),
                dir@ == without_ids(made, all.take(k as int)),
                new_store@ == with_ids(had, all.take(k as int)),
            decreases op_head_ids.len() - k,
        {
            proof {
                lemma_without_ids_by_last(made, all.take(k + 1));
                assert(all.take(k + 1).drop_last() =~= all.take(k as int));
                assert(all.take(k + 1).last() == op_head_ids[k as int]@);
            }
            new_store.add_op_head(&op_head_ids[k]);
            dir.remove_op_head(&op_head_ids[k]);
            k += 1;
        }
        assert(all.take(k as int) =~= all);
        SimpleOpHeadsStore { store: new_store }
    }

    /// The entries of the directory of markers, as a store of their own.
    pub fn store(&self) -> (store: &InnerSimpleOpHeadsStore)
        ensures
            store@ == self@,
    {
        &self.store
    }

    /// The name of this kind of store.
    pub fn name(&self) -> (name: &'static str)
        ensures
            name@ == "simple_op_heads_store"@,
    {
        "simple_op_heads_store"
    }

    /// The names of the entries of the directory of markers.
    pub fn entries(&self) -> (entries: Vec<String>)
        ensures
            name_seq(entries@) == self@,
            self@.no_duplicates(),
    {
        self.store.entries()
    }

    /// Marks the operation `id` as a head. Nothing changes where it is
    /// marked already.
    pub fn add_op_head(&mut self, id: &OperationId)
        ensures
            final(self)@ == with_name(old(self)@, crate::hex_name::hex_of(id@)),
    {
        self.store.add_op_head(id);
    }

    /// Takes the marker of the operation `id` away. Nothing changes where
    /// it is not marked.
    pub fn remove_op_head(&mut self, id: &OperationId)
        ensures
            final(self)@ == without_name(old(self)@, crate::hex_name::hex_of(id@)),
    {
        self.store.remove_op_head(id);
    }

    /// The operations that are marked as heads: one for each entry whose
    /// name is a hexadecimal form, in the order of the entries.
    pub fn get_op_heads(&self) -> (op_heads: Vec<OperationId>)
        ensures
            crate::op_store::id_seq(op_heads@) == head_ids(self@),
    {
        self.store.get_op_heads()
    }

    /// Makes `new_op` a head in place of its parents: marks it, then takes
    /// the markers of its parents away, so that at no time nothing is
    /// marked.
    pub fn finish(&mut self, new_op: &Operation)
        ensures
            final(self)@ == without_ids(
                with_name(old(self)@, crate::hex_name::hex_of(new_op@.id)),
                new_op@.parents,
            ),
    {
        self.store.finish(new_op);
    }

    /// Resolves the heads that are marked, with the records of `log`, and
    /// takes away the markers of the operations that are no heads.
    ///
    /// No marked operation is an error. A single one is the head. Of
    /// several, those that are an ancestor of another are no heads, and
    /// their markers go. If one is left, it is the head; else the heads are
    /// divergent, and they are given from the one that ended first to the
    /// one that ended last.
    ///
    /// Where `log` lacks a record that is needed, no marker is taken away,
    /// and the error names the operation whose record is needed and not
    /// there.
    pub fn get_heads(&mut self, log: &OperationLog) -> (resolved: Result<
        OpHeads,
        OpHeadResolutionError,
    >)
        ensures
            match resolved {
                Ok(op_heads) => {
                    &&& head_ids(old(self)@).len() > 0
                    &&& crate::op_heads_store::needed_record(log@, head_ids(old(self)@)) is None
                    &&& op_heads@ == crate::op_heads_store::resolved_heads(
                        log@,
                        head_ids(old(self)@),
                    )
                    &&& final(self)@ == without_ids(
                        old(self)@,
                        crate::op_heads_store::pruned_heads(log@, head_ids(old(self)@)),
                    )
                },
                Err(OpHeadResolutionError::NoHeads) => {
                    &&& head_ids(old(self)@).len() == 0
                    &&& final(self)@ == old(self)@
                },
                Err(OpHeadResolutionError::RecordNotFound(id)) => {
                    &&& head_ids(old(self)@).len() > 0
                    &&& crate::op_heads_store::needed_record(log@, head_ids(old(self)@)) == Some(
                        id@,
                    )
                    &&& final(self)@ == old(self)@
                },
            },
    {
        self.store.get_heads(log)
    }
}

/// Marking an operation a second time changes nothing, and an operation
/// that was marked has one marker.
pub proof fn lemma_add_twice_is_add_once(names: Seq<Seq<char>>, id: Seq<u8>)
    requires
        names.no_duplicates(),
    ensures
        with_name(with_name(names, crate::hex_name::hex_of(id)), crate::hex_name::hex_of(id))
            == with_name(names, crate::hex_name::hex_of(id)),
        with_name(names, crate::hex_name::hex_of(id)).contains(crate::hex_name::hex_of(id)),
        with_name(names, crate::hex_name::hex_of(id)).no_duplicates(),
{
    lemma_with_name_distinct(names, crate::hex_name::hex_of(id));
}

/// Taking away the marker of an operation that is not marked changes
/// nothing, and taking away a marker leaves every other entry where it is.
pub proof fn lemma_remove_is_lenient(names: Seq<Seq<char>>, id: Seq<u8>)
    ensures
        !names.contains(crate::hex_name::hex_of(id)) ==> without_name(
            names,
            crate::hex_name::hex_of(id),
        ) == names,
        forall|other: Seq<char>|
            other != crate::hex_name::hex_of(id) ==> (#[trigger] without_name(
                names,
                crate::hex_name::hex_of(id),
            ).contains(other) <==> names.contains(other)),
        !without_name(names, crate::hex_name::hex_of(id)).contains(crate::hex_name::hex_of(id)),
{
    lemma_without_name(names, crate::hex_name::hex_of(id));
}

/// The name of the lock file and the name of the directory of markers mark
/// no operation.
pub proof fn lemma_reserved_names_mark_nothing()
    ensures
        !crate::hex_name::is_hex(LOCK_FILE@),
        !crate::hex_name::is_hex(OP_HEADS_DIR@),
{
    reveal_strlit("lock");
    reveal_strlit("simple_op_heads");
    assert(LOCK_FILE@[0] == 'l');
    assert(!crate::hex_name::is_hex_digit(LOCK_FILE@[0]));
    assert(OP_HEADS_DIR@.len() == 15);
}

/// The operations that `names` marks are those that one of its entries
/// stands for.
pub proof fn lemma_head_ids_are_marked(names: Seq<Seq<char>>)
    ensures
        forall|id: Seq<u8>| #[trigger] head_ids(names).contains(id) <==> marks(names, id),
    decreases names.len(),
{
    lemma_head_ids_by_last(names);
    if names.len() > 0 {
        let shorter = names.drop_last();
        let last = names.last();
        lemma_head_ids_are_marked(shorter);
        let before = head_ids(shorter);
        let now = head_ids(names);
        assert forall|id: Seq<u8>| #[trigger] now.contains(id) implies marks(names, id) by {
            let w = choose|w: int| 0 <= w < now.len() && now[w] == id;
            if w < before.len() {
                assert(before[w] == id);
                assert(before.contains(id));
                assert(marks(shorter, id));
                let i = choose|i: int|
                    0 <= i < shorter.len() && crate::hex_name::is_hex(#[trigger] shorter[i])
                        && crate::hex_name::bytes_of(shorter[i]) == id;
                assert(names[i] == shorter[i]);
            } else {
                assert(crate::hex_name::is_hex(names[names.len() - 1]));
            }
        }
        assert forall|id: Seq<u8>| marks(names, id) implies #[trigger] now.contains(id) by {
            let i = choose|i: int|
                0 <= i < names.len() && crate::hex_name::is_hex(#[trigger] names[i])
                    && crate::hex_name::bytes_of(names[i]) == id;
            if i < shorter.len() {
                assert(shorter[i] == names[i]);
                assert(marks(shorter, id));
                assert(before.contains(id));
                let w = choose|w: int| 0 <= w < before.len() && before[w] == id;
                assert(now[w] == id);
            } else {
                assert(now[before.len() as int] == id);
            }
        }
    }
}

/// What is left without the markers of `ids`: the entries that are no
/// marker of one of `ids`.
pub proof fn lemma_without_ids(names: Seq<Seq<char>>, ids: Seq<Seq<u8>>)
    ensures
        forall|name: Seq<char>| #[trigger]
            without_ids(names, ids).contains(name) <==> names.contains(name) && !is_marker_of_any(
                ids,
                name,
            ),
        names.no_duplicates() ==> without_ids(names, ids).no_duplicates(),
    decreases ids.len(),
{
    lemma_without_ids_by_last(names, ids);
    if ids.len() > 0 {
        let shorter = ids.drop_last();
        let marker = crate::hex_name::hex_of(ids.last());
        let before = without_ids(names, shorter);
        let now = without_ids(names, ids);
        lemma_without_ids(names, shorter);
        lemma_without_name(before, marker);
        assert forall|name: Seq<char>| #[trigger] now.contains(name) implies names.contains(name)
            && !is_marker_of_any(ids, name) by {
            assert(name != marker);
            assert(before.contains(name));
            if is_marker_of_any(ids, name) {
                let k = choose|k: int|
                    0 <= k < ids.len() && crate::hex_name::hex_of(#[trigger] ids[k]) == name;
                assert(shorter[k] == ids[k]);
                assert(is_marker_of_any(shorter, name));
            }
        }
        assert forall|name: Seq<char>|
            names.contains(name) && !is_marker_of_any(ids, name) implies #[trigger] now.contains(
            name,
        ) by {
            if is_marker_of_any(shorter, name) {
                let k = choose|k: int|
                    0 <= k < shorter.len() && crate::hex_name::hex_of(#[trigger] shorter[k])
                        == name;
                assert(ids[k] == shorter[k]);
            }
            assert(ids[ids.len() - 1] == ids.last());
            assert(name != marker);
            assert(before.contains(name));
        }
    }
}

/// The names that are not among others are just those.
pub proof fn lemma_names_not_in(names: Seq<Seq<char>>, others: Seq<Seq<char>>)
    ensures
        forall|name: Seq<char>| #[trigger]
            names_not_in(names, others).contains(name) <==> names.contains(name)
                && !others.contains(name),
    decreases names.len(),
{
    reveal(Seq::filter);
    if names.len() > 0 {
        let shorter = names.drop_last();
        let last = names.last();
        let before = names_not_in(shorter, others);
        let now = names_not_in(names, others);
        lemma_names_not_in(shorter, others);
        assert(names[names.len() - 1] == last);
        assert forall|name: Seq<char>| #[trigger] now.contains(name) implies names.contains(name)
            && !others.contains(name) by {
            let w = choose|w: int| 0 <= w < now.len() && now[w] == name;
            if w < before.len() {
                assert(before[w] == name);
                assert(before.contains(name));
                let i = choose|i: int| 0 <= i < shorter.len() && shorter[i] == name;
                assert(names[i] == name);
            }
        }
        assert forall|name: Seq<char>|
            names.contains(name) && !others.contains(name) implies #[trigger] now.contains(
            name,
        ) by {
            let i = choose|i: int| 0 <= i < names.len() && names[i] == name;
            if i < shorter.len() {
                assert(shorter[i] == name);
                assert(shorter.contains(name));
                assert(before.contains(name));
                let w = choose|w: int| 0 <= w < before.len() && before[w] == name;
                assert(now[w] == name);
            } else {
                assert(now[before.len() as int] == name);
            }
        }
    }
}

/// A marked operation that is an ancestor of another marked one is no
/// head and loses its marker, and a marked operation that is no ancestor of
/// a marked one is a head and keeps its marker.
pub proof fn lemma_ancestors_are_pruned(
    names: Seq<Seq<char>>,
    log: Seq<OperationView>,
    ids: Seq<Seq<u8>>,
    id: Seq<u8>,
)
    requires
        ids.contains(id),
    ensures
        crate::dag_walk::is_ancestor_of_any(log, ids, id) ==> {
            &&& !crate::dag_walk::heads_of(log, ids).contains(id)
            &&& crate::op_heads_store::ancestors_among(log, ids, ids).contains(id)
            &&& !without_ids(
                names,
                crate::op_heads_store::ancestors_among(log, ids, ids),
            ).contains(crate::hex_name::hex_of(id))
        },
        !crate::dag_walk::is_ancestor_of_any(log, ids, id) ==> {
            &&& crate::dag_walk::heads_of(log, ids).contains(id)
            &&& !crate::op_heads_store::ancestors_among(log, ids, ids).contains(id)
            &&& names.contains(crate::hex_name::hex_of(id)) ==> without_ids(
                names,
                crate::op_heads_store::ancestors_among(log, ids, ids),
            ).contains(crate::hex_name::hex_of(id))
        },
{
    let pruned = crate::op_heads_store::ancestors_among(log, ids, ids);
    let marker = crate::hex_name::hex_of(id);
    crate::dag_walk::lemma_heads_of_are_heads(log, ids);
    crate::op_heads_store::lemma_ancestors_among(log, ids, ids);
    lemma_without_ids(names, pruned);
    if crate::dag_walk::is_ancestor_of_any(log, ids, id) {
        assert(!crate::dag_walk::is_head(log, ids, id));
        assert(!crate::dag_walk::heads_of(log, ids).contains(id));
        assert(pruned.contains(id));
        let k = choose|k: int| 0 <= k < pruned.len() && pruned[k] == id;
        assert(crate::hex_name::hex_of(pruned[k]) == marker);
        assert(is_marker_of_any(pruned, marker));
    } else {
        assert(crate::dag_walk::is_head(log, ids, id));
        if is_marker_of_any(pruned, marker) {
            let k = choose|k: int|
                0 <= k < pruned.len() && crate::hex_name::hex_of(#[trigger] pruned[k]) == marker;
            crate::hex_name::lemma_hex_of_injective(pruned[k], id);
            assert(pruned.contains(pruned[k]));
        }
    }
}

/// Entries of which none is a hexadecimal form mark nothing.
proof fn lemma_head_ids_without_markers(names: Seq<Seq<char>>)
    requires
        forall|i: int| 0 <= i < names.len() ==> !crate::hex_name::is_hex(#[trigger] names[i]),
    ensures
        head_ids(names) == Seq::<Seq<u8>>::empty(),
    decreases names.len(),
{
    lemma_head_ids_by_last(names);
    if names.len() > 0 {
        let shorter = names.drop_last();
        assert forall|i: int| 0 <= i < shorter.len() implies !crate::hex_name::is_hex(
            #[trigger] shorter[i],
        ) by {
            assert(shorter[i] == names[i]);
        }
        lemma_head_ids_without_markers(shorter);
        assert(!crate::hex_name::is_hex(names[names.len() - 1]));
    }
}

/// Where one entry of `names` is a hexadecimal form, the operation it
/// stands for is the one that `names` marks.
proof fn lemma_head_ids_of_one_marker(names: Seq<Seq<char>>, marker: Seq<char>)
    requires
        names.no_duplicates(),
        names.contains(marker),
        crate::hex_name::is_hex(marker),
        forall|i: int|
            0 <= i < names.len() && crate::hex_name::is_hex(#[trigger] names[i]) ==> names[i]
                == marker,
    ensures
        head_ids(names) == seq![crate::hex_name::bytes_of(marker)],
    decreases names.len(),
{
    lemma_head_ids_by_last(names);
    let shorter = names.drop_last();
    let last = names.last();
    assert(names[names.len() - 1] == last);
    if last == marker {
        assert forall|i: int| 0 <= i < shorter.len() implies !crate::hex_name::is_hex(
            #[trigger] shorter[i],
        ) by {
            assert(shorter[i] == names[i]);
        }
        lemma_head_ids_without_markers(shorter);
        assert(head_ids(names) =~= seq![crate::hex_name::bytes_of(marker)]);
    } else {
        let at = choose|i: int| 0 <= i < names.len() && names[i] == marker;
        assert(shorter[at] == marker);
        assert forall|i: int|
            0 <= i < shorter.len() && crate::hex_name::is_hex(
                #[trigger] shorter[i],
            ) implies shorter[i] == marker by {
            assert(shorter[i] == names[i]);
        }
        lemma_head_ids_of_one_marker(shorter, marker);
    }
}

/// Where every head is a parent of `new_op`, after `finish` the one head is
/// `new_op`.
///
/// The markers have to be in lowercase: that of a parent is taken away
/// under its lowercase name. And `new_op` is none of its own parents.
pub proof fn lemma_finish_leaves_the_new_head(names: Seq<Seq<char>>, new_op: OperationView)
    requires
        names.no_duplicates(),
        markers_in_lowercase(names),
        forall|id: Seq<u8>| marks(names, id) ==> new_op.parents.contains(id),
        !new_op.parents.contains(new_op.id),
    ensures
        head_ids(
            without_ids(with_name(names, crate::hex_name::hex_of(new_op.id)), new_op.parents),
        ) == seq![new_op.id],
{
    let marker = crate::hex_name::hex_of(new_op.id);
    let marked = with_name(names, marker);
    let left = without_ids(marked, new_op.parents);
    lemma_with_name_distinct(names, marker);
    lemma_without_ids(marked, new_op.parents);
    crate::hex_name::lemma_bytes_of_hex_of(new_op.id);
    if is_marker_of_any(new_op.parents, marker) {
        let k = choose|k: int|
            0 <= k < new_op.parents.len() && crate::hex_name::hex_of(#[trigger] new_op.parents[k])
                == marker;
        crate::hex_name::lemma_hex_of_injective(new_op.parents[k], new_op.id);
    }
    assert(left.contains(marker));
    assert forall|i: int|
        0 <= i < left.len() && crate::hex_name::is_hex(#[trigger] left[i]) implies left[i]
        == marker by {
        let name = left[i];
        assert(left.contains(name));
        assert(marked.contains(name));
        if name != marker {
            let at = choose|at: int| 0 <= at < marked.len() && marked[at] == name;
            assert(names[at] == name);
            assert(marks(names, crate::hex_name::bytes_of(name)));
            let parent = crate::hex_name::bytes_of(name);
            let k = choose|k: int| 0 <= k < new_op.parents.len() && new_op.parents[k] == parent;
            crate::hex_name::lemma_hex_of_bytes_of(name);
            assert(crate::hex_name::hex_of(new_op.parents[k]) == name);
            assert(is_marker_of_any(new_op.parents, name));
        }
    }
    lemma_head_ids_of_one_marker(left, marker);
}

/// While `finish` goes on, the new operation stays marked: it is marked
/// first, and taking the markers of any of its parents away leaves its
/// marker, so that at no time nothing is marked.
pub proof fn lemma_finish_keeps_the_new_head(
    names: Seq<Seq<char>>,
    new_op: OperationView,
    done: int,
)
    requires
        !new_op.parents.contains(new_op.id),
        0 <= done <= new_op.parents.len(),
    ensures
        marks(
            without_ids(
                with_name(names, crate::hex_name::hex_of(new_op.id)),
                new_op.parents.take(done),
            ),
            new_op.id,
        ),
{
    let marker = crate::hex_name::hex_of(new_op.id);
    let marked = with_name(names, marker);
    let gone = new_op.parents.take(done);
    let left = without_ids(marked, gone);
    lemma_without_ids(marked, gone);
    crate::hex_name::lemma_bytes_of_hex_of(new_op.id);
    if !names.contains(marker) {
        assert(marked[names.len() as int] == marker);
    }
    assert(marked.contains(marker));
    if is_marker_of_any(gone, marker) {
        let k = choose|k: int|
            0 <= k < gone.len() && crate::hex_name::hex_of(#[trigger] gone[k]) == marker;
        crate::hex_name::lemma_hex_of_injective(gone[k], new_op.id);
        assert(new_op.parents[k] == new_op.id);
    }
    assert(left.contains(marker));
    let at = choose|at: int| 0 <= at < left.len() && left[at] == marker;
    assert(crate::hex_name::is_hex(left[at]));
}

/// Markers in lowercase, each entry once, mark each operation once.
proof fn lemma_head_ids_distinct(names: Seq<Seq<char>>)
    requires
        names.no_duplicates(),
        markers_in_lowercase(names),
    ensures
        head_ids(names).no_duplicates(),
    decreases names.len(),
{
    lemma_head_ids_by_last(names);
    if names.len() > 0 {
        let shorter = names.drop_last();
        let last = names.last();
        assert forall|i: int|
            0 <= i < shorter.len() && crate::hex_name::is_hex(
                #[trigger] shorter[i],
            ) implies crate::hex_name::is_lower_hex(shorter[i]) by {
            assert(shorter[i] == names[i]);
        }
        lemma_head_ids_distinct(shorter);
        lemma_head_ids_are_marked(shorter);
        assert(names[names.len() - 1] == last);
        if crate::hex_name::is_hex(last) {
            let id = crate::hex_name::bytes_of(last);
            if head_ids(shorter).contains(id) {
                assert(marks(shorter, id));
                let i = choose|i: int|
                    0 <= i < shorter.len() && crate::hex_name::is_hex(#[trigger] shorter[i])
                        && crate::hex_name::bytes_of(shorter[i]) == id;
                assert(shorter[i] == names[i]);
                crate::hex_name::lemma_hex_of_bytes_of(names[i]);
                crate::hex_name::lemma_hex_of_bytes_of(last);
                assert(names[i] == names[names.len() - 1]);
            }
        }
    }
}

/// The markers of operations that are named once mark those operations, in
/// their order.
proof fn lemma_head_ids_of_with_ids(ids: Seq<Seq<u8>>)
    requires
        ids.no_duplicates(),
    ensures
        head_ids(with_ids(Seq::empty(), ids)) == ids,
    decreases ids.len(),
{
    if ids.len() > 0 {
        let shorter = ids.drop_last();
        let last = ids.last();
        let marker = crate::hex_name::hex_of(last);
        let before = with_ids(Seq::empty(), shorter);
        lemma_head_ids_of_with_ids(shorter);
        lemma_head_ids_are_marked(before);
        crate::hex_name::lemma_bytes_of_hex_of(last);
        if before.contains(marker) {
            let i = choose|i: int| 0 <= i < before.len() && before[i] == marker;
            assert(marks(before, last));
            assert(shorter.contains(last));
            let k = choose|k: int| 0 <= k < shorter.len() && shorter[k] == last;
            assert(ids[k] == ids[ids.len() - 1]);
        }
        let now = before.push(marker);
        lemma_head_ids_by_last(now);
        assert(now.drop_last() =~= before);
        assert(now.last() == marker);
        assert(head_ids(now) =~= ids);
    } else {
        lemma_head_ids_by_last(Seq::<Seq<char>>::empty());
        assert(head_ids(Seq::<Seq<char>>::empty()) =~= ids);
    }
}

/// An entry of `names` with `name` among them marks what an entry of
/// `names` marks or `name` stands for.
proof fn lemma_with_name_marks(names: Seq<Seq<char>>, name: Seq<char>)
    ensures
        forall|id: Seq<u8>| #[trigger]
            marks(with_name(names, name), id) <==> marks(names, id) || (crate::hex_name::is_hex(
                name,
            ) && crate::hex_name::bytes_of(name) == id),
{
    let now = with_name(names, name);
    assert forall|id: Seq<u8>| #[trigger] marks(now, id) implies marks(names, id) || (
    crate::hex_name::is_hex(name) && crate::hex_name::bytes_of(name) == id) by {
        let i = choose|i: int|
            0 <= i < now.len() && crate::hex_name::is_hex(#[trigger] now[i])
                && crate::hex_name::bytes_of(now[i]) == id;
        if i < names.len() {
            assert(names[i] == now[i]);
        }
    }
    assert forall|id: Seq<u8>|
        marks(names, id) || (crate::hex_name::is_hex(name) && crate::hex_name::bytes_of(name)
            == id) implies #[trigger] marks(now, id) by {
        if marks(names, id) {
            let i = choose|i: int|
                0 <= i < names.len() && crate::hex_name::is_hex(#[trigger] names[i])
                    && crate::hex_name::bytes_of(names[i]) == id;
            assert(now[i] == names[i]);
        } else {
            if !names.contains(name) {
                assert(now[names.len() as int] == name);
            }
            let i = choose|i: int| 0 <= i < now.len() && now[i] == name;
            assert(crate::hex_name::is_hex(now[i]));
        }
    }
}

/// The entries of `names` with the markers of `ids` among them mark what
/// `names` marks and the operations `ids`, and each name is there once.
proof fn lemma_with_ids_marks(names: Seq<Seq<char>>, ids: Seq<Seq<u8>>)
    ensures
        forall|id: Seq<u8>| #[trigger]
            marks(with_ids(names, ids), id) <==> marks(names, id) || ids.contains(id),
        names.no_duplicates() ==> with_ids(names, ids).no_duplicates(),
    decreases ids.len(),
{
    if ids.len() > 0 {
        let shorter = ids.drop_last();
        let last = ids.last();
        let before = with_ids(names, shorter);
        lemma_with_ids_marks(names, shorter);
        lemma_with_name_marks(before, crate::hex_name::hex_of(last));
        crate::hex_name::lemma_bytes_of_hex_of(last);
        if names.no_duplicates() {
            lemma_with_name_distinct(before, crate::hex_name::hex_of(last));
        }
        assert(ids[ids.len() - 1] == last);
        assert forall|id: Seq<u8>| #[trigger] ids.contains(id) <==> shorter.contains(id) || id
            == last by {
            if ids.contains(id) {
                let k = choose|k: int| 0 <= k < ids.len() && ids[k] == id;
                if k < shorter.len() {
                    assert(shorter[k] == id);
                }
            }
            if shorter.contains(id) {
                let k = choose|k: int| 0 <= k < shorter.len() && shorter[k] == id;
                assert(ids[k] == id);
            }
        }
    }
}

/// After [`SimpleOpHeadsStore::load`] the directory of markers marks what
/// it marked and what the directory of the store marked, the directory of
/// the store marks nothing, and to load once more changes nothing.
///
/// The markers of the directory of the store have to be in lowercase: one
/// that is not stays where it is, since a marker is taken away under its
/// lowercase name.
pub proof fn lemma_load_moves_the_markers(dir: Seq<Seq<char>>, op_heads_dir: Option<Seq<Seq<char>>>)
    requires
        dir.no_duplicates(),
        markers_in_lowercase(dir),
    ensures
        forall|id: Seq<u8>| #[trigger]
            marks(loaded_markers(dir, op_heads_dir), id) <==> marks(dir, id) || (
            op_heads_dir matches Some(markers) && marks(markers, id)),
        op_heads_dir is None ==> head_ids(loaded_markers(dir, op_heads_dir)) == head_ids(dir),
        head_ids(loaded_dir(dir)) == Seq::<Seq<u8>>::empty(),
        loaded_markers(loaded_dir(dir), Some(loaded_markers(dir, op_heads_dir))) == loaded_markers(
            dir,
            op_heads_dir,
        ),
        loaded_dir(loaded_dir(dir)) == loaded_dir(dir),
{
    let ids = head_ids(dir);
    let had = match op_heads_dir {
        Some(markers) => markers,
        None => Seq::empty(),
    };
    lemma_head_ids_are_marked(dir);
    lemma_with_ids_marks(had, ids);
    if op_heads_dir is None {
        lemma_head_ids_distinct(dir);
        lemma_head_ids_of_with_ids(ids);
    }
    let made = with_name(dir, OP_HEADS_DIR@);
    let left = without_ids(made, ids);
    lemma_with_name_distinct(dir, OP_HEADS_DIR@);
    lemma_without_ids(made, ids);
    lemma_reserved_names_mark_nothing();
    assert forall|i: int| 0 <= i < left.len() implies !crate::hex_name::is_hex(
        #[trigger] left[i],
    ) by {
        let name = left[i];
        if crate::hex_name::is_hex(name) {
            assert(left.contains(name));
            assert(made.contains(name));
            let at = choose|at: int| 0 <= at < made.len() && made[at] == name;
            assert(dir[at] == name);
            let id = crate::hex_name::bytes_of(name);
            assert(marks(dir, id));
            assert(ids.contains(id));
            let k = choose|k: int| 0 <= k < ids.len() && ids[k] == id;
            crate::hex_name::lemma_hex_of_bytes_of(name);
            assert(crate::hex_name::hex_of(ids[k]) == name);
            assert(is_marker_of_any(ids, name));
        }
    }
    lemma_head_ids_without_markers(left);
    assert(left.contains(OP_HEADS_DIR@)) by {
        if is_marker_of_any(ids, OP_HEADS_DIR@) {
            let k = choose|k: int|
                0 <= k < ids.len() && crate::hex_name::hex_of(#[trigger] ids[k]) == OP_HEADS_DIR@;
            crate::hex_name::lemma_bytes_of_hex_of(ids[k]);
        }
    }
    lemma_without_ids_by_last(left, Seq::<Seq<u8>>::empty());
}

} // verus!
