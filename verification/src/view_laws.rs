//! What the values that contracts speak of stand for.

use crate::cache;
use crate::counts::{LineCountRequest, ProjectLineCount};
use crate::order::Key;
use crate::ordered_map;
use crate::queue;
use crate::queue::{ActiveBatch, Requests};
use crate::rel_path;
use crate::rel_path::RelPath;
use crate::rows;
use crate::rows::{LineCountRow, StoreError};
use crate::store;
use crate::update;
use crate::worker;
use crate::worker::LineCountBatch;
use vstd::prelude::*;

verus! {

/// Requests, paths, rounds of changes, rows, bytes and results are taken by value,
/// one by one and in order.
pub proof fn law_values_are_taken_one_by_one(
    requests: Seq<LineCountRequest>,
    paths: Seq<RelPath>,
    rounds: Seq<Vec<RelPath>>,
    rows: Seq<LineCountRow>,
    bytes: Seq<u8>,
    i: int,
)
    ensures
        cache::asked(requests).len() == requests.len(),
        0 <= i < requests.len() ==> cache::asked(requests)[i].0 == requests[i].path@
            && cache::asked(requests)[i].1 == requests[i].fingerprint,
        rel_path::texts_of(paths).len() == paths.len(),
        0 <= i < paths.len() ==> rel_path::texts_of(paths)[i] == paths[i]@,
        update::rounds_of(rounds).len() == rounds.len(),
        0 <= i < rounds.len() ==> update::rounds_of(rounds)[i].len() == rounds[i]@.len()
            && forall|k: int|
            0 <= k < rounds[i]@.len() ==> #[trigger] update::rounds_of(rounds)[i][k]
                == rounds[i]@[k]@,
        rows::listed(rows).len() == rows.len(),
        0 <= i < rows.len() ==> {
            let listed = rows::listed(rows)[i];
            &&& listed.0 == rows[i].path@
            &&& listed.1.mtime_seconds == rows[i].mtime_seconds
            &&& listed.1.mtime_nanos == rows[i].mtime_nanos
            &&& listed.1.size == rows[i].size
            &&& listed.1.inode == rows[i].inode
            &&& listed.1.line_count == rows[i].line_count
            &&& listed.1.is_binary == rows[i].is_binary
        },
        store::byte_values(bytes).len() == bytes.len(),
        0 <= i < bytes.len() ==> store::byte_values(bytes)[i] == bytes[i],
{
}

/// Results are what was handed over, or nothing where nothing was.
pub proof fn law_results_are_taken_as_they_are(
    results: Vec<ProjectLineCount>,
    result: &ProjectLineCount,
    error: StoreError,
)
    ensures
        worker::results_in(Some(results)) == Some(results@),
        worker::results_in(None) is None,
        cache::result_of(Some(result)) == Some(*result),
        cache::result_of(None) is None,
        store::result_with(Some(error)) == Err::<(), StoreError>(error),
        store::result_with(None) == Ok::<(), StoreError>(()),
{
}

/// A batch carries its number, its worktree, and the paths of its requests, each
/// once; what is open of it is kept by path with the state that was asked for.
pub proof fn law_what_a_batch_carries(
    batch: LineCountBatch,
    id: int,
    plan: (usize, Requests),
    open: ActiveBatch,
    batches: Map<usize, ActiveBatch>,
    number: usize,
)
    ensures
        worker::carries(batch, id, plan) ==> {
            &&& batch.id == id
            &&& batch.worktree_id@ == plan.0
            &&& forall|path: Seq<char>| #[trigger]
                plan.1.contains_key(path) <==> exists|i: int|
                    0 <= i < batch.paths@.len() && (#[trigger] batch.paths@[i])@ == path
            &&& forall|i: int, j: int|
                0 <= i < j < batch.paths@.len() ==> (#[trigger] batch.paths@[i])@ != (
                #[trigger] batch.paths@[j])@
        },
        queue::batch_model(open).0 == open.worktree_id@,
        queue::batch_model(open).1 == open.requests@,
        queue::batches_model(batches).contains_key(number) <==> batches.contains_key(number),
        batches.contains_key(number) ==> queue::batches_model(batches)[number]
            == queue::batch_model(batches[number]),
{
    if worker::carries(batch, id, plan) {
        let texts = rel_path::texts_of(batch.paths@);
        assert forall|path: Seq<char>| #[trigger] plan.1.contains_key(path) <==> exists|i: int|
            0 <= i < batch.paths@.len() && (#[trigger] batch.paths@[i])@ == path by {
            assert(plan.1.dom().contains(path) == texts.to_set().contains(path));
            if plan.1.contains_key(path) {
                assert(texts.contains(path));
                let i = choose|i: int| 0 <= i < texts.len() && texts[i] == path;
                assert(batch.paths@[i]@ == path);
            }
            if exists|i: int| 0 <= i < batch.paths@.len() && (#[trigger] batch.paths@[i])@
                == path {
                let i = choose|i: int|
                    0 <= i < batch.paths@.len() && (#[trigger] batch.paths@[i])@ == path;
                assert(texts[i] == path);
                assert(texts.contains(path));
            }
        }
        assert forall|i: int, j: int| 0 <= i < j < batch.paths@.len() implies (
        #[trigger] batch.paths@[i])@ != (#[trigger] batch.paths@[j])@ by {
            assert(texts[i] != texts[j]);
        }
    }
}

/// A listing holds each of its keys once, and stands for the map of its pairs.
pub proof fn law_listings<K: Key, V>(s: Seq<(K::Model, V)>, key: K::Model)
    requires
        ordered_map::strictly_ordered::<K, V>(s),
    ensures
        ordered_map::map_of(s).contains_key(key) <==> exists|i: int|
            0 <= i < s.len() && (#[trigger] s[i]).0 == key,
        forall|i: int|
            0 <= i < s.len() ==> ordered_map::map_of(s)[(#[trigger] s[i]).0] == s[i].1,
        forall|i: int, j: int|
            0 <= i < j < s.len() ==> K::before((#[trigger] s[i]).0, (#[trigger] s[j]).0),
{
    ordered_map::lemma_map_of::<K, V>(s);
}

} // verus!
