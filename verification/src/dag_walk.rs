//! Walking the operation graph from child to parent.

use vstd::prelude::*;

use crate::op_store::OperationId;
use crate::operation::{Operation, OperationLog, OperationView};

verus! {

/// Whether `log` records `parent` as a parent of `child`.
pub open spec fn is_parent(log: Seq<OperationView>, parent: Seq<u8>, child: Seq<u8>) -> bool {
    exists|i: int|
        0 <= i < log.len() && (#[trigger] log[i]).id == child && log[i].parents.contains(parent)
}

/// Whether `chain` leads from `from` to `to` by parent steps: it begins with
/// `from`, ends with `to`, and each id after the first is recorded as a
/// parent of the id before it.
pub open spec fn descends(
    log: Seq<OperationView>,
    chain: Seq<Seq<u8>>,
    from: Seq<u8>,
    to: Seq<u8>,
) -> bool {
    &&& chain.len() >= 1
    &&& chain[0] == from
    &&& chain[chain.len() - 1] == to
    &&& forall|k: int| 0 < k < chain.len() ==> is_parent(log, #[trigger] chain[k], chain[k - 1])
}

/// Whether `ancestor` is reached from `descendant` by one or more parent
/// steps.
pub open spec fn is_ancestor(
    log: Seq<OperationView>,
    ancestor: Seq<u8>,
    descendant: Seq<u8>,
) -> bool {
    exists|chain: Seq<Seq<u8>>|
        chain.len() >= 2 && #[trigger] descends(log, chain, descendant, ancestor)
}

/// Whether `id` is an ancestor of one of `start`.
pub open spec fn is_ancestor_of_any(
    log: Seq<OperationView>,
    start: Seq<Seq<u8>>,
    id: Seq<u8>,
) -> bool {
    exists|k: int| 0 <= k < start.len() && is_ancestor(log, id, #[trigger] start[k])
}

/// Whether a walk from `start` comes to `id`: `id` is one of `start` or an
/// ancestor of one.
pub open spec fn is_reached(log: Seq<OperationView>, start: Seq<Seq<u8>>, id: Seq<u8>) -> bool {
    start.contains(id) || is_ancestor_of_any(log, start, id)
}

/// Whether a walk from `start` finds a record for every id it comes to.
pub open spec fn is_complete(log: Seq<OperationView>, start: Seq<Seq<u8>>) -> bool {
    forall|id: Seq<u8>| is_reached(log, start, id) ==> crate::operation::has_record(log, id)
}

/// Whether `id` is a head among `start`: one of them, and no ancestor of any
/// of them.
pub open spec fn is_head(log: Seq<OperationView>, start: Seq<Seq<u8>>, id: Seq<u8>) -> bool {
    start.contains(id) && !is_ancestor_of_any(log, start, id)
}

/// The heads among the first `n` ids of `start`, each once, in the order in
/// which `start` first names them.
pub open spec fn heads_among(log: Seq<OperationView>, start: Seq<Seq<u8>>, n: int) -> Seq<Seq<u8>>
    decreases n,
{
    if n <= 0 {
        Seq::empty()
    } else {
        let before = heads_among(log, start, n - 1);
        let id = start[n - 1];
        if is_head(log, start, id) && !start.take(n - 1).contains(id) {
            before.push(id)
        } else {
            before
        }
    }
}

/// The heads among `start`, each once, in the order in which `start` first
/// names them.
pub open spec fn heads_of(log: Seq<OperationView>, start: Seq<Seq<u8>>) -> Seq<Seq<u8>> {
    heads_among(log, start, start.len() as int)
}

/// The place of the first of `ids` that `log` has no record of, or the
/// number of `ids` where it has a record of each.
pub open spec fn first_without_record(log: Seq<OperationView>, ids: Seq<Seq<u8>>) -> int
    decreases ids.len(),
{
    if ids.len() == 0 {
        0
    } else if !crate::operation::has_record(log, ids[0]) {
        0
    } else {
        1 + first_without_record(log, ids.drop_first())
    }
}

/// Whether the record at `i` is one that a walk from `start` comes to and
/// that names a parent without a record.
pub open spec fn lacks_parent(log: Seq<OperationView>, start: Seq<Seq<u8>>, i: int) -> bool {
    is_reached(log, start, log[i].id) && first_without_record(log, log[i].parents)
        < log[i].parents.len()
}

/// The place of the first record from `from` on that a walk from `start`
/// comes to and that names a parent without a record, or the number of
/// records where there is none.
pub open spec fn first_lacking(log: Seq<OperationView>, start: Seq<Seq<u8>>, from: int) -> int
    decreases log.len() - from,
{
    if from >= log.len() {
        log.len() as int
    } else if lacks_parent(log, start, from) {
        from
    } else {
        first_lacking(log, start, from + 1)
    }
}

/// The operation whose record a walk from `start` misses: the first of
/// `start` without a record; or where each of them has one, of the first
/// record that the walk comes to and that names a parent without a record,
/// the first such parent. None where the walk misses no record.
pub open spec fn missing_record(log: Seq<OperationView>, start: Seq<Seq<u8>>) -> Option<Seq<u8>> {
    let k = first_without_record(log, start);
    let i = first_lacking(log, start, 0);
    if k < start.len() {
        Some(start[k])
    } else if i < log.len() {
        Some(log[i].parents[first_without_record(log, log[i].parents)])
    } else {
        None
    }
}

/// Whether each record of `log` is a record of `more`.
pub open spec fn is_part_of(log: Seq<OperationView>, more: Seq<OperationView>) -> bool {
    forall|i: int| 0 <= i < log.len() ==> more.contains(#[trigger] log[i])
}

/// Whether a chain of parent steps leads from one of `start` to `id`.
spec fn walk_reaches(log: Seq<OperationView>, start: Seq<Seq<u8>>, id: Seq<u8>) -> bool {
    exists|k: int, chain: Seq<Seq<u8>>|
        0 <= k < start.len() && #[trigger] descends(log, chain, start[k], id)
}

/// Whether the walk has seen the record of `id`.
spec fn id_seen(log: Seq<OperationView>, seen: Seq<bool>, id: Seq<u8>) -> bool {
    exists|j: int| 0 <= j < log.len() && (#[trigger] log[j]).id == id && seen[j]
}

/// Whether the walk has found `parent`: its record is marked as an ancestor
/// and is seen.
spec fn parent_found(
    log: Seq<OperationView>,
    marked: Seq<bool>,
    seen: Seq<bool>,
    parent: Seq<u8>,
) -> bool {
    exists|j: int| 0 <= j < log.len() && (#[trigger] log[j]).id == parent && marked[j] && seen[j]
}

/// Whether the walk has found each of the first `upto` parents of the
/// record at `i` that has a record.
spec fn parents_found(
    log: Seq<OperationView>,
    marked: Seq<bool>,
    seen: Seq<bool>,
    i: int,
    upto: int,
) -> bool {
    forall|m: int|
        0 <= m < upto && crate::operation::has_record(log, #[trigger] log[i].parents[m])
            ==> parent_found(log, marked, seen, log[i].parents[m])
}

/// How many of `done` are not set.
spec fn pending(done: Seq<bool>) -> nat
    decreases done.len(),
{
    if done.len() == 0 {
        0
    } else {
        pending(done.drop_last()) + if done.last() {
            0nat
        } else {
            1nat
        }
    }
}

/// Setting one of `done` leaves one less that is not set.
proof fn lemma_pending_set(done: Seq<bool>, i: int)
    requires
        0 <= i < done.len(),
        !done[i],
    ensures
        pending(done.update(i, true)) + 1 == pending(done),
    decreases done.len(),
{
    if i == done.len() - 1 {
        assert(done.update(i, true).drop_last() =~= done.drop_last());
    } else {
        lemma_pending_set(done.drop_last(), i);
        assert(done.update(i, true).drop_last() =~= done.drop_last().update(i, true));
    }
}

/// A walk begins at each of `start`.
proof fn lemma_walk_reaches_start(log: Seq<OperationView>, start: Seq<Seq<u8>>, k: int)
    requires
        0 <= k < start.len(),
    ensures
        walk_reaches(log, start, start[k]),
{
    let chain = seq![start[k]];
    assert(descends(log, chain, start[k], start[k]));
}

/// A walk that comes to a child comes to its parent, which is an ancestor
/// of one of `start`.
proof fn lemma_walk_reaches_parent(
    log: Seq<OperationView>,
    start: Seq<Seq<u8>>,
    child: Seq<u8>,
    parent: Seq<u8>,
)
    requires
        walk_reaches(log, start, child),
        is_parent(log, parent, child),
    ensures
        walk_reaches(log, start, parent),
        is_ancestor_of_any(log, start, parent),
{
    let (k, chain) = choose|k: int, chain: Seq<Seq<u8>>|
        0 <= k < start.len() && #[trigger] descends(log, chain, start[k], child);
    let longer = chain.push(parent);
    assert forall|m: int| 0 < m < longer.len() implies is_parent(
        log,
        #[trigger] longer[m],
        longer[m - 1],
    ) by {
        if m < chain.len() {
            assert(longer[m] == chain[m]);
            assert(longer[m - 1] == chain[m - 1]);
        }
    }
    assert(descends(log, longer, start[k], parent));
    assert(is_ancestor(log, parent, start[k]));
}

/// A chain without its last id leads to the id before the last.
proof fn lemma_descends_shorter(
    log: Seq<OperationView>,
    chain: Seq<Seq<u8>>,
    from: Seq<u8>,
    to: Seq<u8>,
)
    requires
        descends(log, chain, from, to),
        chain.len() >= 2,
    ensures
        descends(log, chain.drop_last(), from, chain[chain.len() - 2]),
        is_parent(log, to, chain[chain.len() - 2]),
{
    let shorter = chain.drop_last();
    assert forall|m: int| 0 < m < shorter.len() implies is_parent(
        log,
        #[trigger] shorter[m],
        shorter[m - 1],
    ) by {
        assert(shorter[m] == chain[m]);
        assert(shorter[m - 1] == chain[m - 1]);
    }
    let last = chain.len() - 1;
    assert(is_parent(log, chain[last], chain[last - 1]));
}

/// What a walk that left nothing pending has seen: the record of every id
/// that a chain from `start` comes to, marked if the chain has a step.
proof fn lemma_walk_closed(
    log: Seq<OperationView>,
    start: Seq<Seq<u8>>,
    marked: Seq<bool>,
    seen: Seq<bool>,
    k: int,
    chain: Seq<Seq<u8>>,
    id: Seq<u8>,
) -> (j: int)
    requires
        crate::operation::unique_ids(log),
        marked.len() == log.len(),
        seen.len() == log.len(),
        forall|r: int| 0 <= r < start.len() ==> id_seen(log, seen, #[trigger] start[r]),
        forall|i: int|
            0 <= i < log.len() && seen[i] ==> parents_found(
                log,
                marked,
                seen,
                i,
                (#[trigger] log[i]).parents.len() as int,
            ),
        0 <= k < start.len(),
        descends(log, chain, start[k], id),
        crate::operation::has_record(log, id),
    ensures
        0 <= j < log.len(),
        log[j].id == id,
        seen[j],
        chain.len() >= 2 ==> marked[j],
    decreases chain.len(),
{
    if chain.len() == 1 {
        assert(id_seen(log, seen, start[k]));
        choose|j: int| 0 <= j < log.len() && (#[trigger] log[j]).id == start[k] && seen[j]
    } else {
        let shorter = chain.drop_last();
        let child = chain[chain.len() - 2];
        lemma_descends_shorter(log, chain, start[k], id);
        let i = choose|i: int|
            0 <= i < log.len() && (#[trigger] log[i]).id == child && log[i].parents.contains(id);
        let c = lemma_walk_closed(log, start, marked, seen, k, shorter, child);
        assert(i == c);
        let m = choose|m: int| 0 <= m < log[i].parents.len() && log[i].parents[m] == id;
        assert(parents_found(log, marked, seen, i, log[i].parents.len() as int));
        assert(parent_found(log, marked, seen, log[i].parents[m]));
        choose|j: int| 0 <= j < log.len() && (#[trigger] log[j]).id == id && marked[j] && seen[j]
    }
}

/// A walk by chains comes to the ids that are one of `start` or an ancestor
/// of one.
proof fn lemma_walk_reaches_is_reached(log: Seq<OperationView>, start: Seq<Seq<u8>>, id: Seq<u8>)
    ensures
        walk_reaches(log, start, id) <==> is_reached(log, start, id),
{
    if walk_reaches(log, start, id) {
        let (k, chain) = choose|k: int, chain: Seq<Seq<u8>>|
            0 <= k < start.len() && #[trigger] descends(log, chain, start[k], id);
        if chain.len() >= 2 {
            assert(is_ancestor(log, id, start[k]));
        } else {
            assert(start[k] == id);
        }
    }
    if start.contains(id) {
        let k = choose|k: int| 0 <= k < start.len() && start[k] == id;
        lemma_walk_reaches_start(log, start, k);
    }
    if is_ancestor_of_any(log, start, id) {
        let k = choose|k: int| 0 <= k < start.len() && is_ancestor(log, id, #[trigger] start[k]);
        let chain = choose|chain: Seq<Seq<u8>>|
            chain.len() >= 2 && #[trigger] descends(log, chain, start[k], id);
        assert(descends(log, chain, start[k], id));
    }
}

/// Parents that were found stay found when more records are marked and
/// seen.
proof fn lemma_parents_found_grows(
    log: Seq<OperationView>,
    marked: Seq<bool>,
    seen: Seq<bool>,
    more_marked: Seq<bool>,
    more_seen: Seq<bool>,
    i: int,
    upto: int,
)
    requires
        marked.len() == log.len(),
        seen.len() == log.len(),
        more_marked.len() == log.len(),
        more_seen.len() == log.len(),
        forall|j: int| 0 <= j < log.len() && marked[j] ==> more_marked[j],
        forall|j: int| 0 <= j < log.len() && seen[j] ==> more_seen[j],
        parents_found(log, marked, seen, i, upto),
    ensures
        parents_found(log, more_marked, more_seen, i, upto),
{
    assert forall|m: int|
        0 <= m < upto && crate::operation::has_record(
            log,
            #[trigger] log[i].parents[m],
        ) implies parent_found(log, more_marked, more_seen, log[i].parents[m]) by {
        assert(parent_found(log, marked, seen, log[i].parents[m]));
        let j = choose|j: int|
            0 <= j < log.len() && (#[trigger] log[j]).id == log[i].parents[m] && marked[j]
                && seen[j];
        assert(log[j].id == log[i].parents[m] && more_marked[j] && more_seen[j]);
    }
}

/// The first of `ids` without a record stands where one without a record
/// follows on such with a record.
proof fn lemma_first_without_record_is(log: Seq<OperationView>, ids: Seq<Seq<u8>>, at: int)
    requires
        0 <= at <= ids.len(),
        forall|k: int| 0 <= k < at ==> crate::operation::has_record(log, #[trigger] ids[k]),
        at < ids.len() ==> !crate::operation::has_record(log, ids[at]),
    ensures
        first_without_record(log, ids) == at,
{
    lemma_first_without_record(log, ids);
    let first = first_without_record(log, ids);
    if first < at {
        assert(crate::operation::has_record(log, ids[first]));
    }
    if at < first {
        assert(crate::operation::has_record(log, ids[at]));
    }
}

/// The first record that lacks a parent stands where one that lacks a
/// parent follows on such that lack none.
proof fn lemma_first_lacking_is(log: Seq<OperationView>, start: Seq<Seq<u8>>, at: int)
    requires
        0 <= at <= log.len(),
        forall|i: int| 0 <= i < at ==> !#[trigger] lacks_parent(log, start, i),
        at < log.len() ==> lacks_parent(log, start, at),
    ensures
        first_lacking(log, start, 0) == at,
{
    lemma_first_lacking(log, start, 0);
    let first = first_lacking(log, start, 0);
    if first < at {
        assert(!lacks_parent(log, start, first));
    }
    if at < first {
        assert(!lacks_parent(log, start, at));
    }
}

/// `n` flags, none of them set.
fn cleared(n: usize) -> (flags: Vec<bool>)
    ensures
        flags.len() == n,
        forall|i: int| 0 <= i < n ==> !flags[i],
{
    let mut flags: Vec<bool> = Vec::new();
    let mut i: usize = 0;
    while i < n
        invariant
            i <= n,
            flags.len() == i,
            forall|k: int| 0 <= k < i ==> !flags[k],
        decreases n - i,
    {
        flags.push(false);
        i += 1;
    }
    flags
}

/// A record that the walk has seen and not yet left behind.
fn next_pending(seen: &Vec<bool>, done: &Vec<bool>) -> (next: Option<usize>)
    requires
        seen.len() == done.len(),
    ensures
        match next {
            Some(i) => i < seen.len() && seen[i as int] && !done[i as int],
            None => forall|i: int| 0 <= i < seen.len() && seen[i] ==> done[i],
        },
{
    let mut i: usize = 0;
    while i < seen.len()
        invariant
            i <= seen.len(),
            seen.len() == done.len(),
            forall|k: int| 0 <= k < i && seen[k] ==> done[k],
        decreases seen.len() - i,
    {
        if seen[i] && !done[i] {
            return Some(i);
        }
        i += 1;
    }
    None
}

/// Where the first of `ids` without a record stands, or the number of
/// `ids`, and where the records of those before it stand.
fn locate(ids: &Vec<OperationId>, log: &OperationLog) -> (found: (usize, Vec<usize>))
    ensures
        found.0 == first_without_record(log@, crate::op_store::id_seq(ids@)),
        found.1.len() == found.0,
        forall|k: int|
            0 <= k < found.0 ==> (#[trigger] found.1[k]) < log@.len() && log@[found.1[k] as int].id
                == ids[k]@,
{
    let ghost views = crate::op_store::id_seq(ids@);
    let mut places: Vec<usize> = Vec::new();
    let mut k: usize = 0;
    while k < ids.len()
        invariant
            k <= ids.len(),
            views == crate::op_store::id_seq(ids@),
            places.len() == k,
            forall|r: int| 0 <= r < k ==> crate::operation::has_record(log@, #[trigger] views[r]),
            forall|r: int|
                0 <= r < k ==> (#[trigger] places[r]) < log@.len() && log@[places[r] as int].id
                    == ids[r]@,
        decreases ids.len() - k,
    {
        assert(views[k as int] == ids[k as int]@);
        match log.position(&ids[k]) {
            Some(j) => {
                places.push(j);
            },
            None => {
                proof {
                    lemma_first_without_record_is(log@, views, k as int);
                }
                return (k, places);
            },
        }
        k += 1;
    }
    proof {
        lemma_first_without_record_is(log@, views, k as int);
    }
    (k, places)
}

/// Walks from the records at `roots` to every ancestor that has a record,
/// and gives for each record whether a parent step led to it, and whether
/// the walk came to it.
fn walk(log: &OperationLog, roots: &Vec<usize>, Ghost(start): Ghost<Seq<Seq<u8>>>) -> (walked: (
    Vec<bool>,
    Vec<bool>,
))
    requires
        roots.len() == start.len(),
        forall|k: int|
            0 <= k < start.len() ==> (#[trigger] roots[k]) < log@.len() && log@[roots[k] as int].id
                == start[k],
    ensures
        walked.0.len() == log@.len(),
        walked.1.len() == log@.len(),
        forall|j: int|
            0 <= j < log@.len() ==> (#[trigger] walked.0[j] <==> is_ancestor_of_any(
                log@,
                start,
                log@[j].id,
            )),
        forall|j: int|
            0 <= j < log@.len() ==> (#[trigger] walked.1[j] <==> is_reached(
                log@,
                start,
                log@[j].id,
            )),
{
    let n = log.len();
    let mut seen = cleared(n);
    let mut done = cleared(n);
    let mut marked = cleared(n);
    let mut k: usize = 0;
    while k < roots.len()
        invariant
            k <= roots.len(),
            roots.len() == start.len(),
            seen.len() == n,
            n == log@.len(),
            forall|r: int|
                0 <= r < start.len() ==> (#[trigger] roots[r]) < log@.len()
                    && log@[roots[r] as int].id == start[r],
            forall|r: int| 0 <= r < k ==> id_seen(log@, seen@, #[trigger] start[r]),
            forall|i: int|
                0 <= i < n && #[trigger] seen[i] ==> walk_reaches(log@, start, log@[i].id),
        decreases roots.len() - k,
    {
        let ghost before = seen@;
        seen.set(roots[k], true);
        proof {
            lemma_walk_reaches_start(log@, start, k as int);
            assert forall|r: int| 0 <= r < k + 1 implies id_seen(
                log@,
                seen@,
                #[trigger] start[r],
            ) by {
                if r < k {
                    assert(id_seen(log@, before, start[r]));
                    let j = choose|j: int|
                        0 <= j < log@.len() && (#[trigger] log@[j]).id == start[r] && before[j];
                    assert(log@[j].id == start[r] && seen@[j]);
                } else {
                    let j = roots[r] as int;
                    assert(log@[j].id == start[r] && seen@[j]);
                }
            }
        }
        k += 1;
    }
    let mut next = next_pending(&seen, &done);
    while next.is_some()
        invariant
            n == log@.len(),
            seen.len() == n,
            done.len() == n,
            marked.len() == n,
            crate::operation::unique_ids(log@),
            forall|r: int| 0 <= r < start.len() ==> id_seen(log@, seen@, #[trigger] start[r]),
            forall|i: int|
                0 <= i < n && #[trigger] seen[i] ==> walk_reaches(log@, start, log@[i].id),
            forall|i: int|
                0 <= i < n && #[trigger] done[i] ==> seen[i] && parents_found(
                    log@,
                    marked@,
                    seen@,
                    i,
                    log@[i].parents.len() as int,
                ),
            forall|j: int|
                0 <= j < n && #[trigger] marked[j] ==> is_ancestor_of_any(log@, start, log@[j].id),
            match next {
                Some(i) => i < n && seen[i as int] && !done[i as int],
                None => forall|i: int| 0 <= i < n && seen[i] ==> done[i],
            },
        decreases pending(done@),
    {
        let i = next.unwrap();
        let parents = log.get(i).parent_ids();
        let mut m: usize = 0;
        while m < parents.len()
            invariant
                m <= parents.len(),
                i < n,
                n == log@.len(),
                seen.len() == n,
                done.len() == n,
                marked.len() == n,
                seen[i as int],
                !done[i as int],
                crate::op_store::id_seq(parents@) == log@[i as int].parents,
                crate::operation::unique_ids(log@),
                forall|r: int| 0 <= r < start.len() ==> id_seen(log@, seen@, #[trigger] start[r]),
                forall|i: int|
                    0 <= i < n && #[trigger] seen[i] ==> walk_reaches(log@, start, log@[i].id),
                forall|i: int|
                    0 <= i < n && #[trigger] done[i] ==> seen[i] && parents_found(
                        log@,
                        marked@,
                        seen@,
                        i,
                        log@[i].parents.len() as int,
                    ),
                forall|j: int|
                    0 <= j < n && #[trigger] marked[j] ==> is_ancestor_of_any(
                        log@,
                        start,
                        log@[j].id,
                    ),
                parents_found(log@, marked@, seen@, i as int, m as int),
            decreases parents.len() - m,
        {
            let ghost old_seen = seen@;
            let ghost old_marked = marked@;
            let ghost child = log@[i as int].id;
            let ghost parent = parents[m as int]@;
            proof {
                assert(crate::op_store::id_seq(parents@)[m as int] == parent);
                assert(log@[i as int].parents[m as int] == parent);
                assert(log@[i as int].parents.contains(parent));
                assert(is_parent(log@, parent, child));
                lemma_walk_reaches_parent(log@, start, child, parent);
            }
            match log.position(&parents[m]) {
                None => {},
                Some(j) => {
                    marked.set(j, true);
                    seen.set(j, true);
                    proof {
                        assert forall|r: int| 0 <= r < start.len() implies id_seen(
                            log@,
                            seen@,
                            #[trigger] start[r],
                        ) by {
                            assert(id_seen(log@, old_seen, start[r]));
                            let w = choose|w: int|
                                0 <= w < log@.len() && (#[trigger] log@[w]).id == start[r]
                                    && old_seen[w];
                            assert(log@[w].id == start[r] && seen@[w]);
                        }
                        assert forall|d: int| 0 <= d < n && #[trigger] done[d] implies seen[d]
                            && parents_found(
                            log@,
                            marked@,
                            seen@,
                            d,
                            log@[d].parents.len() as int,
                        ) by {
                            lemma_parents_found_grows(
                                log@,
                                old_marked,
                                old_seen,
                                marked@,
                                seen@,
                                d,
                                log@[d].parents.len() as int,
                            );
                        }
                        lemma_parents_found_grows(
                            log@,
                            old_marked,
                            old_seen,
                            marked@,
                            seen@,
                            i as int,
                            m as int,
                        );
                        assert(log@[j as int].id == parent && marked@[j as int] && seen@[j as int]);
                        assert(parent_found(
                            log@,
                            marked@,
                            seen@,
                            log@[i as int].parents[m as int],
                        ));
                    }
                },
            }
            m += 1;
        }
        proof {
            lemma_pending_set(done@, i as int);
        }
        done.set(i, true);
        next = next_pending(&seen, &done);
    }
    proof {
        assert forall|i: int| 0 <= i < log@.len() && seen@[i] implies parents_found(
            log@,
            marked@,
            seen@,
            i,
            (#[trigger] log@[i]).parents.len() as int,
        ) by {
            assert(done[i]);
        }
        assert forall|j: int| 0 <= j < log@.len() && is_ancestor_of_any(
            log@,
            start,
            log@[j].id,
        ) implies #[trigger] marked[j] by {
            let id = log@[j].id;
            let k = choose|k: int|
                0 <= k < start.len() && is_ancestor(log@, id, #[trigger] start[k]);
            let chain = choose|chain: Seq<Seq<u8>>|
                chain.len() >= 2 && #[trigger] descends(log@, chain, start[k], id);
            let w = lemma_walk_closed(log@, start, marked@, seen@, k, chain, id);
            assert(w == j);
        }
        assert forall|j: int| 0 <= j < log@.len() implies (#[trigger] seen[j] <==> is_reached(
            log@,
            start,
            log@[j].id,
        )) by {
            let id = log@[j].id;
            lemma_walk_reaches_is_reached(log@, start, id);
            if is_reached(log@, start, id) {
                let (k, chain) = choose|k: int, chain: Seq<Seq<u8>>|
                    0 <= k < start.len() && #[trigger] descends(log@, chain, start[k], id);
                let w = lemma_walk_closed(log@, start, marked@, seen@, k, chain, id);
                assert(w == j);
            }
        }
    }
    (marked, seen)
}

/// The first record that the walk came to and that names a parent without
/// a record, and the place of the first such parent among its parents.
fn find_lacking(log: &OperationLog, seen: &Vec<bool>, Ghost(start): Ghost<Seq<Seq<u8>>>) -> (found:
    Option<(usize, usize)>)
    requires
        seen.len() == log@.len(),
        forall|j: int|
            0 <= j < log@.len() ==> (#[trigger] seen[j] <==> is_reached(log@, start, log@[j].id)),
    ensures
        match found {
            Some((i, m)) => {
                &&& i == first_lacking(log@, start, 0)
                &&& i < log@.len()
                &&& m == first_without_record(log@, log@[i as int].parents)
                &&& m < log@[i as int].parents.len()
            },
            None => first_lacking(log@, start, 0) == log@.len(),
        },
{
    let n = log.len();
    let mut i: usize = 0;
    while i < n
        invariant
            i <= n,
            n == log@.len(),
            seen.len() == n,
            forall|j: int|
                0 <= j < log@.len() ==> (#[trigger] seen[j] <==> is_reached(
                    log@,
                    start,
                    log@[j].id,
                )),
            forall|w: int| 0 <= w < i ==> !#[trigger] lacks_parent(log@, start, w),
        decreases n - i,
    {
        if seen[i] {
            let (m, _) = locate(log.get(i).parent_ids(), log);
            if m < log.get(i).parent_ids().len() {
                proof {
                    lemma_first_lacking_is(log@, start, i as int);
                }
                return Some((i, m));
            }
        }
        i += 1;
    }
    proof {
        lemma_first_lacking_is(log@, start, n as int);
    }
    None
}

/// Whether one of the first `k` of `roots` is `j`.
spec fn named_before(roots: Seq<usize>, k: int, j: int) -> bool {
    exists|r: int| 0 <= r < k && #[trigger] roots[r] == j
}

/// The heads among `start`: the operations that `start` names, without
/// those that are an ancestor of another one it names, each once, in the
/// order in which `start` first names them.
///
/// The walk needs the record of every operation it comes to. Where `log`
/// lacks one, the result is the id of the operation whose record the walk
/// misses.
pub fn heads(start: &Vec<OperationId>, log: &OperationLog) -> (found: Result<
    Vec<Operation>,
    OperationId,
>)
    ensures
        match found {
            Ok(heads) => {
                &&& missing_record(log@, crate::op_store::id_seq(start@)) is None
                &&& crate::operation::operation_seq(heads@) == crate::operation::records_of(
                    log@,
                    heads_of(log@, crate::op_store::id_seq(start@)),
                )
            },
            Err(id) => missing_record(log@, crate::op_store::id_seq(start@)) == Some(id@),
        },
{
    let ghost ids = crate::op_store::id_seq(start@);
    let (located, roots) = locate(start, log);
    proof {
        lemma_first_without_record(log@, ids);
    }
    if located < start.len() {
        assert(ids[located as int] == start[located as int]@);
        return Err(start[located].clone());
    }
    assert forall|k: int| 0 <= k < ids.len() implies (#[trigger] roots[k]) < log@.len()
        && log@[roots[k] as int].id == ids[k] by {
        assert(ids[k] == start[k]@);
    }
    let (marked, seen) = walk(log, &roots, Ghost(ids));
    match find_lacking(log, &seen, Ghost(ids)) {
        Some((i, m)) => {
            let parents = log.get(i).parent_ids();
            assert(crate::op_store::id_seq(parents@)[m as int] == parents[m as int]@);
            return Err(parents[m].clone());
        },
        None => {},
    }
    let mut emitted = cleared(log.len());
    let mut heads: Vec<Operation> = Vec::new();
    let mut k: usize = 0;
    while k < start.len()
        invariant
            k <= start.len(),
            ids == crate::op_store::id_seq(start@),
            ids.len() == start.len(),
            roots.len() == start.len(),
            marked.len() == log@.len(),
            emitted.len() == log@.len(),
            crate::operation::unique_ids(log@),
            forall|r: int|
                0 <= r < ids.len() ==> (#[trigger] roots[r]) < log@.len()
                    && log@[roots[r] as int].id == ids[r],
            forall|j: int|
                0 <= j < log@.len() ==> (#[trigger] marked[j] <==> is_ancestor_of_any(
                    log@,
                    ids,
                    log@[j].id,
                )),
            forall|j: int|
                0 <= j < log@.len() ==> (#[trigger] emitted[j] <==> !marked[j] && named_before(
                    roots@,
                    k as int,
                    j,
                )),
            crate::operation::operation_seq(heads@) == crate::operation::records_of(
                log@,
                heads_among(log@, ids, k as int),
            ),
        decreases start.len() - k,
    {
        let j = roots[k];
        let ghost id = ids[k as int];
        let ghost before = heads_among(log@, ids, k as int);
        let ghost old_heads = heads@;
        let ghost old_emitted = emitted@;
        proof {
            assert(ids.contains(id));
            if ids.take(k as int).contains(id) {
                let r = choose|r: int| 0 <= r < k && ids.take(k as int)[r] == id;
                assert(ids[r] == id);
                assert(log@[roots[r] as int].id == log@[j as int].id);
                assert(roots@[r] == j);
                assert(named_before(roots@, k as int, j as int));
            }
            if named_before(roots@, k as int, j as int) {
                let r = choose|r: int| 0 <= r < k && #[trigger] roots@[r] == j as int;
                assert(ids.take(k as int)[r] == id);
            }
        }
        if !marked[j] && !emitted[j] {
            emitted.set(j, true);
            heads.push(log.get(j).clone());
            proof {
                crate::operation::lemma_record_of(log@, j as int);
                assert(heads_among(log@, ids, k + 1) == before.push(id));
                assert(crate::operation::operation_seq(heads@)
                    =~= crate::operation::operation_seq(old_heads).push(log@[j as int]));
                assert(crate::operation::records_of(log@, before.push(id))
                    =~= crate::operation::records_of(log@, before).push(
                    crate::operation::record_of(log@, id),
                ));
            }
        } else {
            assert(heads_among(log@, ids, k + 1) == before);
        }
        proof {
            assert forall|w: int| 0 <= w < log@.len() implies (#[trigger] emitted[w] <==> !marked[w]
                && named_before(roots@, k + 1, w)) by {
                if named_before(roots@, k as int, w) {
                    let r = choose|r: int| 0 <= r < k && #[trigger] roots@[r] == w;
                    assert(roots@[r] == w && r < k + 1);
                }
                if named_before(roots@, k + 1, w) && w != j {
                    let r = choose|r: int| 0 <= r < k + 1 && #[trigger] roots@[r] == w;
                    assert(r < k);
                }
                if w == j {
                    assert(roots@[k as int] == j);
                    assert(named_before(roots@, k + 1, w));
                }
            }
        }
        k += 1;
    }
    Ok(heads)
}

/// The heads among `start` are heads, and each of them is named once.
pub proof fn lemma_heads_of_are_heads(log: Seq<OperationView>, start: Seq<Seq<u8>>)
    ensures
        heads_of(log, start).no_duplicates(),
        forall|id: Seq<u8>| heads_of(log, start).contains(id) <==> is_head(log, start, id),
{
    lemma_heads_among(log, start, start.len() as int);
    assert(start.take(start.len() as int) =~= start);
    assert forall|id: Seq<u8>| is_head(log, start, id) implies heads_of(log, start).contains(
        id,
    ) by {
        assert(start.take(start.len() as int).contains(id));
    }
}

/// The heads among the first `n` of `start` are the heads that are among
/// those, and each of them is named once.
proof fn lemma_heads_among(log: Seq<OperationView>, start: Seq<Seq<u8>>, n: int)
    requires
        0 <= n <= start.len(),
    ensures
        heads_among(log, start, n).no_duplicates(),
        forall|id: Seq<u8>| #[trigger]
            heads_among(log, start, n).contains(id) ==> is_head(log, start, id) && start.take(
                n,
            ).contains(id),
        forall|id: Seq<u8>|
            is_head(log, start, id) && #[trigger] start.take(n).contains(id) ==> heads_among(
                log,
                start,
                n,
            ).contains(id),
    decreases n,
{
    if n > 0 {
        lemma_heads_among(log, start, n - 1);
        let before = heads_among(log, start, n - 1);
        let now = heads_among(log, start, n);
        let last = start[n - 1];
        let shorter = start.take(n - 1);
        let prefix = start.take(n);
        assert(prefix[n - 1] == last);
        let grown = is_head(log, start, last) && !shorter.contains(last);
        assert(now == if grown {
            before.push(last)
        } else {
            before
        });
        assert forall|id: Seq<u8>| now.contains(id) implies is_head(log, start, id)
            && prefix.contains(id) by {
            let r = choose|r: int| 0 <= r < now.len() && now[r] == id;
            if r < before.len() {
                assert(before[r] == id);
                assert(before.contains(id));
                let w = choose|w: int| 0 <= w < shorter.len() && shorter[w] == id;
                assert(prefix[w] == id);
            } else {
                assert(id == last);
            }
        }
        assert forall|id: Seq<u8>| is_head(log, start, id) && prefix.contains(
            id,
        ) implies now.contains(id) by {
            let r = choose|r: int| 0 <= r < prefix.len() && prefix[r] == id;
            if r < n - 1 {
                assert(shorter[r] == id);
            }
            if shorter.contains(id) {
                assert(before.contains(id));
                let w = choose|w: int| 0 <= w < before.len() && before[w] == id;
                assert(now[w] == id);
            } else {
                assert(id == last);
                assert(now[before.len() as int] == last);
            }
        }
        if grown {
            assert(!before.contains(last));
        }
    }
}

/// An operation that is no ancestor of itself, as in a log without
/// cycles, is an ancestor of one of `start` just when it is an ancestor of
/// another one of `start`.
pub proof fn lemma_ancestor_of_another(log: Seq<OperationView>, start: Seq<Seq<u8>>, id: Seq<u8>)
    requires
        !is_ancestor(log, id, id),
    ensures
        is_ancestor_of_any(log, start, id) <==> exists|k: int|
            0 <= k < start.len() && #[trigger] start[k] != id && is_ancestor(log, id, start[k]),
{
    if is_ancestor_of_any(log, start, id) {
        let k = choose|k: int| 0 <= k < start.len() && is_ancestor(log, id, #[trigger] start[k]);
        assert(start[k] != id);
    }
}

/// Where the first of `ids` without a record stands.
pub proof fn lemma_first_without_record(log: Seq<OperationView>, ids: Seq<Seq<u8>>)
    ensures
        0 <= first_without_record(log, ids) <= ids.len(),
        forall|k: int|
            0 <= k < first_without_record(log, ids) ==> crate::operation::has_record(
                log,
                #[trigger] ids[k],
            ),
        first_without_record(log, ids) < ids.len() ==> !crate::operation::has_record(
            log,
            ids[first_without_record(log, ids)],
        ),
    decreases ids.len(),
{
    if ids.len() > 0 && crate::operation::has_record(log, ids[0]) {
        let rest = ids.drop_first();
        lemma_first_without_record(log, rest);
        assert forall|k: int|
            0 <= k < first_without_record(log, ids) implies crate::operation::has_record(
            log,
            #[trigger] ids[k],
        ) by {
            if k > 0 {
                assert(ids[k] == rest[k - 1]);
            }
        }
        if first_without_record(log, ids) < ids.len() {
            assert(ids[first_without_record(log, ids)] == rest[first_without_record(log, rest)]);
        }
    }
}

/// Where the first record that lacks a parent stands.
pub proof fn lemma_first_lacking(log: Seq<OperationView>, start: Seq<Seq<u8>>, from: int)
    requires
        0 <= from <= log.len(),
    ensures
        from <= first_lacking(log, start, from) <= log.len(),
        forall|i: int|
            from <= i < first_lacking(log, start, from) ==> !#[trigger] lacks_parent(log, start, i),
        first_lacking(log, start, from) < log.len() ==> lacks_parent(
            log,
            start,
            first_lacking(log, start, from),
        ),
    decreases log.len() - from,
{
    if from < log.len() && !lacks_parent(log, start, from) {
        lemma_first_lacking(log, start, from + 1);
    }
}

/// A walk misses a record just when it is not complete, and the record it
/// misses is one of an operation that it comes to.
pub proof fn lemma_missing_record(log: Seq<OperationView>, start: Seq<Seq<u8>>)
    ensures
        missing_record(log, start) is None <==> is_complete(log, start),
        missing_record(log, start) matches Some(id) ==> is_reached(log, start, id)
            && !crate::operation::has_record(log, id),
{
    let k = first_without_record(log, start);
    let i = first_lacking(log, start, 0);
    lemma_first_without_record(log, start);
    lemma_first_lacking(log, start, 0);
    if k < start.len() {
        assert(start.contains(start[k]));
        assert(is_reached(log, start, start[k]));
    } else if i < log.len() {
        let parents = log[i].parents;
        let m = first_without_record(log, parents);
        lemma_first_without_record(log, parents);
        assert(lacks_parent(log, start, i));
        assert(parents.contains(parents[m]));
        assert(is_parent(log, parents[m], log[i].id));
        lemma_walk_reaches_is_reached(log, start, log[i].id);
        lemma_walk_reaches_parent(log, start, log[i].id, parents[m]);
        assert(is_reached(log, start, parents[m]));
    } else {
        assert forall|id: Seq<u8>| is_reached(
            log,
            start,
            id,
        ) implies crate::operation::has_record(log, id) by {
            lemma_walk_reaches_is_reached(log, start, id);
            let (r, chain) = choose|r: int, chain: Seq<Seq<u8>>|
                0 <= r < start.len() && #[trigger] descends(log, chain, start[r], id);
            if chain.len() == 1 {
                assert(crate::operation::has_record(log, start[r]));
            } else {
                let child = chain[chain.len() - 2];
                lemma_descends_shorter(log, chain, start[r], id);
                assert(walk_reaches(log, start, child));
                lemma_walk_reaches_is_reached(log, start, child);
                let c = choose|c: int|
                    0 <= c < log.len() && (#[trigger] log[c]).id == child
                        && log[c].parents.contains(id);
                assert(!lacks_parent(log, start, c));
                lemma_first_without_record(log, log[c].parents);
                let m = choose|m: int| 0 <= m < log[c].parents.len() && log[c].parents[m] == id;
                assert(crate::operation::has_record(log, log[c].parents[m]));
            }
        }
    }
}

/// What a walk comes to with a part of the records, it comes to with all
/// of them.
pub proof fn lemma_reached_in_more(
    log: Seq<OperationView>,
    more: Seq<OperationView>,
    start: Seq<Seq<u8>>,
    id: Seq<u8>,
)
    requires
        is_part_of(log, more),
        is_reached(log, start, id),
    ensures
        is_reached(more, start, id),
{
    if is_ancestor_of_any(log, start, id) {
        let k = choose|k: int| 0 <= k < start.len() && is_ancestor(log, id, #[trigger] start[k]);
        let chain = choose|chain: Seq<Seq<u8>>|
            chain.len() >= 2 && #[trigger] descends(log, chain, start[k], id);
        lemma_descends_in_more(log, more, chain, start[k], id);
        assert(is_ancestor(more, id, start[k]));
    }
}

/// A chain of parent steps in a part of the records is one in all of them.
proof fn lemma_descends_in_more(
    log: Seq<OperationView>,
    more: Seq<OperationView>,
    chain: Seq<Seq<u8>>,
    from: Seq<u8>,
    to: Seq<u8>,
)
    requires
        is_part_of(log, more),
        descends(log, chain, from, to),
    ensures
        descends(more, chain, from, to),
{
    assert forall|m: int| 0 < m < chain.len() implies is_parent(
        more,
        #[trigger] chain[m],
        chain[m - 1],
    ) by {
        assert(is_parent(log, chain[m], chain[m - 1]));
        let i = choose|i: int|
            0 <= i < log.len() && (#[trigger] log[i]).id == chain[m - 1] && log[i].parents.contains(
                chain[m],
            );
        assert(more.contains(log[i]));
        let j = choose|j: int| 0 <= j < more.len() && more[j] == log[i];
        assert(more[j].id == chain[m - 1] && more[j].parents.contains(chain[m]));
    }
}

/// A chain of parent steps from one of `start` is one in a part of the
/// records with which a walk from `start` is complete.
proof fn lemma_descends_in_part(
    log: Seq<OperationView>,
    more: Seq<OperationView>,
    start: Seq<Seq<u8>>,
    k: int,
    chain: Seq<Seq<u8>>,
    to: Seq<u8>,
)
    requires
        is_part_of(log, more),
        crate::operation::unique_ids(more),
        is_complete(log, start),
        0 <= k < start.len(),
        descends(more, chain, start[k], to),
    ensures
        descends(log, chain, start[k], to),
    decreases chain.len(),
{
    if chain.len() >= 2 {
        let shorter = chain.drop_last();
        let child = chain[chain.len() - 2];
        lemma_descends_shorter(more, chain, start[k], to);
        lemma_descends_in_part(log, more, start, k, shorter, child);
        assert(walk_reaches(log, start, child));
        lemma_walk_reaches_is_reached(log, start, child);
        assert(crate::operation::has_record(log, child));
        let i = choose|i: int| 0 <= i < log.len() && (#[trigger] log[i]).id == child;
        assert(more.contains(log[i]));
        let j = choose|j: int| 0 <= j < more.len() && more[j] == log[i];
        let c = choose|c: int|
            0 <= c < more.len() && (#[trigger] more[c]).id == child && more[c].parents.contains(to);
        assert(c == j);
        assert(log[i].id == child && log[i].parents.contains(to));
        assert(is_parent(log, to, child));
        assert forall|m: int| 0 < m < chain.len() implies is_parent(
            log,
            #[trigger] chain[m],
            chain[m - 1],
        ) by {
            if m < shorter.len() {
                assert(chain[m] == shorter[m]);
                assert(chain[m - 1] == shorter[m - 1]);
            }
        }
    }
}

/// The record of an operation in a part of the records is its record in all
/// of them.
pub proof fn lemma_record_in_more(log: Seq<OperationView>, more: Seq<OperationView>, id: Seq<u8>)
    requires
        is_part_of(log, more),
        crate::operation::unique_ids(more),
        crate::operation::has_record(log, id),
    ensures
        crate::operation::has_record(more, id),
        crate::operation::record_of(more, id) == crate::operation::record_of(log, id),
{
    let record = crate::operation::record_of(log, id);
    let i = choose|i: int| 0 <= i < log.len() && (#[trigger] log[i]).id == id;
    assert(more.contains(log[i]));
    let j = choose|j: int| 0 <= j < more.len() && more[j] == log[i];
    assert(more[j].id == id);
    crate::operation::lemma_record_of(more, j);
}

/// Where the ancestors are the same, the heads are the same.
proof fn lemma_heads_among_in_more(
    log: Seq<OperationView>,
    more: Seq<OperationView>,
    start: Seq<Seq<u8>>,
    n: int,
)
    requires
        forall|id: Seq<u8>| #[trigger]
            is_ancestor_of_any(more, start, id) <==> is_ancestor_of_any(log, start, id),
    ensures
        heads_among(more, start, n) == heads_among(log, start, n),
    decreases n,
{
    if n > 0 {
        lemma_heads_among_in_more(log, more, start, n - 1);
        assert(is_ancestor_of_any(more, start, start[n - 1]) <==> is_ancestor_of_any(
            log,
            start,
            start[n - 1],
        ));
    }
}

/// Records that a walk does not come to do not matter: where a walk from
/// `start` is complete with the records `log`, it is so with any records
/// that `log` is a part of, and the ancestors and the heads are the same.
pub proof fn lemma_walk_in_more(
    log: Seq<OperationView>,
    more: Seq<OperationView>,
    start: Seq<Seq<u8>>,
)
    requires
        is_part_of(log, more),
        crate::operation::unique_ids(more),
        is_complete(log, start),
    ensures
        is_complete(more, start),
        forall|id: Seq<u8>| #[trigger]
            is_ancestor_of_any(more, start, id) <==> is_ancestor_of_any(log, start, id),
        heads_of(more, start) == heads_of(log, start),
        crate::operation::records_of(more, heads_of(more, start)) == crate::operation::records_of(
            log,
            heads_of(log, start),
        ),
{
    assert forall|id: Seq<u8>| #[trigger]
        is_ancestor_of_any(more, start, id) <==> is_ancestor_of_any(log, start, id) by {
        if is_ancestor_of_any(more, start, id) {
            let k = choose|k: int|
                0 <= k < start.len() && is_ancestor(more, id, #[trigger] start[k]);
            let chain = choose|chain: Seq<Seq<u8>>|
                chain.len() >= 2 && #[trigger] descends(more, chain, start[k], id);
            lemma_descends_in_part(log, more, start, k, chain, id);
            assert(is_ancestor(log, id, start[k]));
        }
        if is_ancestor_of_any(log, start, id) {
            let k = choose|k: int|
                0 <= k < start.len() && is_ancestor(log, id, #[trigger] start[k]);
            let chain = choose|chain: Seq<Seq<u8>>|
                chain.len() >= 2 && #[trigger] descends(log, chain, start[k], id);
            lemma_descends_in_more(log, more, chain, start[k], id);
            assert(is_ancestor(more, id, start[k]));
        }
    }
    assert forall|id: Seq<u8>| is_reached(
        more,
        start,
        id,
    ) implies crate::operation::has_record(more, id) by {
        assert(is_ancestor_of_any(more, start, id) <==> is_ancestor_of_any(log, start, id));
        assert(is_reached(log, start, id));
        lemma_record_in_more(log, more, id);
    }
    lemma_heads_among_in_more(log, more, start, start.len() as int);
    let heads = heads_of(log, start);
    lemma_heads_of_are_heads(log, start);
    assert forall|m: int| 0 <= m < heads.len() implies crate::operation::record_of(
        more,
        #[trigger] heads[m],
    ) == crate::operation::record_of(log, heads[m]) by {
        assert(heads.contains(heads[m]));
        assert(is_head(log, start, heads[m]));
        assert(is_reached(log, start, heads[m]));
        lemma_record_in_more(log, more, heads[m]);
    }
    assert(crate::operation::records_of(more, heads) =~= crate::operation::records_of(log, heads));
}

} // verus!
