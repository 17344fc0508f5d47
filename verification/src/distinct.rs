//! Resets and changes that name each path once.

use crate::cache;
use crate::cache::Counts;
use crate::counts;
use crate::counts::{EntryFingerprint, LineCountEntry, LineCountRequest, ProjectLineCount};
use crate::filter::LineCountFilter;
use crate::worktree::Entry;
use vstd::prelude::*;

verus! {

/// No two of the entries stand at the same path.
pub open spec fn distinct_paths(entries: Seq<&Entry>) -> bool {
    forall|i: int, j: int|
        0 <= i < j < entries.len() ==> (#[trigger] entries[i]).path@ != (
        #[trigger] entries[j]).path@
}

/// One of the entries stands at `path`.
pub open spec fn has_path(entries: Seq<&Entry>, path: Seq<char>) -> bool {
    exists|i: int| 0 <= i < entries.len() && (#[trigger] entries[i]).path@ == path
}

/// After a reset to entries at distinct paths, what is known of each of them is
/// what the reset keeps of it, and nothing else is known.
pub proof fn law_reset_keeps_what_is_there(
    filter: LineCountFilter,
    known: Counts,
    entries: Seq<&Entry>,
)
    requires
        distinct_paths(entries),
    ensures
        forall|i: int|
            0 <= i < entries.len() ==> cache::counts_on_reset(filter, known, entries).contains_key(
                (#[trigger] entries[i]).path@,
            ) == (cache::entry_on_reset(filter, known, *entries[i]) is Some),
        forall|i: int|
            0 <= i < entries.len() && cache::counts_on_reset(filter, known, entries).contains_key(
                (#[trigger] entries[i]).path@,
            ) ==> cache::entry_on_reset(filter, known, *entries[i]) == Some(
                cache::counts_on_reset(filter, known, entries)[entries[i].path@],
            ),
        forall|path: Seq<char>| #[trigger]
            cache::counts_on_reset(filter, known, entries).contains_key(path) ==> has_path(
                entries,
                path,
            ),
        cache::counts_on_reset(filter, known, entries).dom().finite(),
    decreases entries.len(),
{
    if entries.len() > 0 {
        let front = entries.drop_last();
        let last = entries.len() - 1;
        law_reset_keeps_what_is_there(filter, known, front);
        let before = cache::counts_on_reset(filter, known, front);
        let after = cache::counts_on_reset(filter, known, entries);
        if before.contains_key(entries[last].path@) {
            assert(has_path(front, entries[last].path@));
            let i = choose|i: int|
                0 <= i < front.len() && (#[trigger] front[i]).path@ == entries[last].path@;
            assert(entries[i] == front[i]);
        }
        assert forall|i: int| 0 <= i < entries.len() implies after.contains_key(
            (#[trigger] entries[i]).path@,
        ) == (cache::entry_on_reset(filter, known, *entries[i]) is Some) && (after.contains_key(
            entries[i].path@,
        ) ==> cache::entry_on_reset(filter, known, *entries[i]) == Some(
            after[entries[i].path@],
        )) by {
            if i < last {
                assert(front[i] == entries[i]);
            }
        }
        assert forall|path: Seq<char>| #[trigger] after.contains_key(path) implies has_path(
            entries,
            path,
        ) by {
            if path == entries[last].path@ {
            } else {
                assert(before.contains_key(path));
                let i = choose|i: int| 0 <= i < front.len() && (#[trigger] front[i]).path@ == path;
                assert(entries[i].path@ == path);
            }
        }
    }
}

/// Edits at distinct paths leave at each of these paths what its edit says, and
/// everything else as it was.
pub proof fn lemma_edited(known: Counts, edits: Seq<(Seq<char>, Option<LineCountEntry>)>)
    requires
        forall|i: int, j: int|
            0 <= i < j < edits.len() ==> (#[trigger] edits[i]).0 != (#[trigger] edits[j]).0,
    ensures
        forall|i: int|
            0 <= i < edits.len() ==> cache::edited(known, edits).contains_key(
                (#[trigger] edits[i]).0,
            ) == (edits[i].1 is Some),
        forall|i: int|
            0 <= i < edits.len() && (#[trigger] edits[i]).1 is Some ==> edits[i].1 == Some(
                cache::edited(known, edits)[edits[i].0],
            ),
        forall|path: Seq<char>|
            (forall|i: int| 0 <= i < edits.len() ==> (#[trigger] edits[i]).0 != path) ==> (
            #[trigger] cache::edited(known, edits).contains_key(path)) == known.contains_key(path)
                && cache::edited(known, edits)[path] == known[path],
    decreases edits.len(),
{
    if edits.len() > 0 {
        let front = edits.drop_last();
        let last = edits.len() - 1;
        lemma_edited(known, front);
        let before = cache::edited(known, front);
        let after = cache::edited(known, edits);
        assert forall|i: int| 0 <= i < edits.len() implies after.contains_key(
            (#[trigger] edits[i]).0,
        ) == (edits[i].1 is Some) && (edits[i].1 is Some ==> edits[i].1 == Some(
            after[edits[i].0],
        )) by {
            if i < last {
                assert(front[i] == edits[i]);
                assert(edits[i].0 != edits[last].0);
            }
        }
        assert forall|path: Seq<char>|
            (forall|i: int| 0 <= i < edits.len() ==> (#[trigger] edits[i]).0 != path) implies (
        #[trigger] after.contains_key(path)) == known.contains_key(path) && after[path]
            == known[path] by {
            assert forall|i: int| 0 <= i < front.len() implies (#[trigger] front[i]).0 != path by {
                assert(edits[i] == front[i]);
            }
            assert(edits[last].0 != path);
            assert(before.contains_key(path) == known.contains_key(path));
        }
    }
}

/// Changed entries at distinct paths: what is known of each of them is what its
/// change leaves, and everything else stays as it was.
pub proof fn law_changes_touch_only_their_paths(
    filter: LineCountFilter,
    known: Counts,
    entries: Seq<&Entry>,
)
    requires
        distinct_paths(entries),
    ensures
        forall|i: int|
            0 <= i < entries.len() ==> cache::counts_on_change(filter, known, entries).contains_key(
                (#[trigger] entries[i]).path@,
            ) == (cache::entry_on_change(filter, known, *entries[i]) is Some),
        forall|i: int|
            0 <= i < entries.len() && cache::entry_on_change(
                filter,
                known,
                *(#[trigger] entries[i]),
            ) is Some ==> cache::counts_on_change(filter, known, entries)[entries[i].path@]
                == cache::entry_on_change(filter, known, *entries[i])->0,
        forall|path: Seq<char>|
            !has_path(entries, path) ==> (#[trigger] cache::counts_on_change(
                filter,
                known,
                entries,
            ).contains_key(path)) == known.contains_key(path),
        forall|path: Seq<char>|
            !has_path(entries, path) && known.contains_key(path) ==> (
            #[trigger] cache::counts_on_change(filter, known, entries)[path]) == known[path],
{
    let edits = cache::edits_on_change(filter, known, entries);
    let after = cache::counts_on_change(filter, known, entries);
    assert forall|i: int, j: int| 0 <= i < j < edits.len() implies (#[trigger] edits[i]).0 != (
    #[trigger] edits[j]).0 by {
        assert(entries[i].path@ != entries[j].path@);
    }
    lemma_edited(known, edits);
    assert forall|i: int| 0 <= i < entries.len() implies after.contains_key(
        (#[trigger] entries[i]).path@,
    ) == (cache::entry_on_change(filter, known, *entries[i]) is Some) by {
        assert(edits[i].0 == entries[i].path@);
    }
    assert forall|i: int|
        0 <= i < entries.len() && cache::entry_on_change(
            filter,
            known,
            *(#[trigger] entries[i]),
        ) is Some implies after[entries[i].path@] == cache::entry_on_change(
        filter,
        known,
        *entries[i],
    )->0 by {
        assert(edits[i].0 == entries[i].path@);
    }
    assert forall|path: Seq<char>| !has_path(entries, path) implies (#[trigger] after.contains_key(
        path,
    )) == known.contains_key(path) && after[path] == known[path] by {
        assert forall|i: int| 0 <= i < edits.len() implies (#[trigger] edits[i]).0 != path by {
            assert(entries[i].path@ != path);
        }
    }
    assert forall|path: Seq<char>|
        !has_path(entries, path) && known.contains_key(path) implies (#[trigger] after[path])
        == known[path] by {
        assert(after.contains_key(path));
    }
}

/// What a reset asks for, request by request.
pub proof fn lemma_requests_on_reset(
    filter: LineCountFilter,
    known: Counts,
    entries: Seq<&Entry>,
)
    ensures
        ({
            let requests = cache::requests_on_reset(filter, known, entries);
            &&& forall|k: int|
                0 <= k < requests.len() ==> asks_for_one(
                    filter,
                    known,
                    entries,
                    #[trigger] requests[k],
                    false,
                )
            &&& forall|i: int|
                0 <= i < entries.len() && cache::is_counted(filter, *#[trigger] entries[i])
                    && !cache::is_current(known, *entries[i]) ==> requests.contains(
                    (entries[i].path@, counts::fingerprint_of(*entries[i])),
                )
        }),
    decreases entries.len(),
{
    if entries.len() > 0 {
        let front = entries.drop_last();
        let last = entries.len() - 1;
        lemma_requests_on_reset(filter, known, front);
        let before = cache::requests_on_reset(filter, known, front);
        let after = cache::requests_on_reset(filter, known, entries);
        assert forall|k: int| 0 <= k < after.len() implies asks_for_one(
            filter,
            known,
            entries,
            #[trigger] after[k],
            false,
        ) by {
            if k < before.len() {
                assert(asks_for_one(filter, known, front, before[k], false));
                let i = choose|i: int|
                    0 <= i < front.len() && is_asked(
                        filter,
                        known,
                        *#[trigger] front[i],
                        before[k],
                        false,
                    );
                assert(entries[i] == front[i]);
            } else {
                assert(is_asked(filter, known, *entries[last], after[k], false));
            }
        }
        assert forall|i: int|
            0 <= i < entries.len() && cache::is_counted(filter, *#[trigger] entries[i])
                && !cache::is_current(known, *entries[i]) implies after.contains(
            (entries[i].path@, counts::fingerprint_of(*entries[i])),
        ) by {
            let request = (entries[i].path@, counts::fingerprint_of(*entries[i]));
            if i < last {
                assert(front[i] == entries[i]);
                let k = choose|k: int| 0 <= k < before.len() && before[k] == request;
                assert(after[k] == request);
            } else {
                assert(after[before.len() as int] == request);
            }
        }
    }
}

/// What changed entries ask for, request by request.
pub proof fn lemma_requests_on_change(
    filter: LineCountFilter,
    known: Counts,
    entries: Seq<&Entry>,
)
    ensures
        ({
            let requests = cache::requests_on_change(filter, known, entries);
            &&& forall|k: int|
                0 <= k < requests.len() ==> asks_for_one(
                    filter,
                    known,
                    entries,
                    #[trigger] requests[k],
                    true,
                )
            &&& forall|i: int|
                0 <= i < entries.len() && cache::is_counted(filter, *#[trigger] entries[i])
                    && !cache::is_reusable(known, *entries[i]) ==> requests.contains(
                    (entries[i].path@, counts::fingerprint_of(*entries[i])),
                )
        }),
    decreases entries.len(),
{
    if entries.len() > 0 {
        let front = entries.drop_last();
        let last = entries.len() - 1;
        lemma_requests_on_change(filter, known, front);
        let before = cache::requests_on_change(filter, known, front);
        let after = cache::requests_on_change(filter, known, entries);
        assert forall|k: int| 0 <= k < after.len() implies asks_for_one(
            filter,
            known,
            entries,
            #[trigger] after[k],
            true,
        ) by {
            if k < before.len() {
                assert(asks_for_one(filter, known, front, before[k], true));
                let i = choose|i: int|
                    0 <= i < front.len() && is_asked(
                        filter,
                        known,
                        *#[trigger] front[i],
                        before[k],
                        true,
                    );
                assert(entries[i] == front[i]);
            } else {
                assert(is_asked(filter, known, *entries[last], after[k], true));
            }
        }
        assert forall|i: int|
            0 <= i < entries.len() && cache::is_counted(filter, *#[trigger] entries[i])
                && !cache::is_reusable(known, *entries[i]) implies after.contains(
            (entries[i].path@, counts::fingerprint_of(*entries[i])),
        ) by {
            let request = (entries[i].path@, counts::fingerprint_of(*entries[i]));
            if i < last {
                assert(front[i] == entries[i]);
                let k = choose|k: int| 0 <= k < before.len() && before[k] == request;
                assert(after[k] == request);
            } else {
                assert(after[before.len() as int] == request);
            }
        }
    }
}

/// `request` asks for the count of `entry`, which is not to be had from what is
/// known: on a change what can be reused, on a reset whatever is current.
pub open spec fn is_asked(
    filter: LineCountFilter,
    known: Counts,
    entry: Entry,
    request: (Seq<char>, EntryFingerprint),
    on_change: bool,
) -> bool {
    &&& request == (entry.path@, counts::fingerprint_of(entry))
    &&& cache::is_counted(filter, entry)
    &&& if on_change {
        !cache::is_reusable(known, entry)
    } else {
        !cache::is_current(known, entry)
    }
}

/// `request` asks for the count of one of the entries.
pub open spec fn asks_for_one(
    filter: LineCountFilter,
    known: Counts,
    entries: Seq<&Entry>,
    request: (Seq<char>, EntryFingerprint),
    on_change: bool,
) -> bool {
    exists|i: int|
        0 <= i < entries.len() && is_asked(
            filter,
            known,
            *#[trigger] entries[i],
            request,
            on_change,
        )
}

/// No two of the requests are about the same path.
pub open spec fn distinct_requests(
    results: Seq<(&LineCountRequest, Option<&ProjectLineCount>)>,
) -> bool {
    forall|i: int, j: int|
        0 <= i < j < results.len() ==> (#[trigger] results[i]).0.path@ != (
        #[trigger] results[j]).0.path@
}

proof fn lemma_edits_on_results(
    known: Counts,
    results: Seq<(&LineCountRequest, Option<&ProjectLineCount>)>,
)
    requires
        distinct_requests(results),
    ensures
        ({
            let edits = cache::edits_on_results(known, results);
            &&& forall|k: int|
                0 <= k < edits.len() ==> sets_for_one(known, results, #[trigger] edits[k])
            &&& forall|i: int|
                0 <= i < results.len() && cache::is_awaited(
                    known,
                    (#[trigger] results[i]).0.path@,
                    results[i].0.fingerprint,
                ) ==> edits.contains(edit_for(known, results[i]))
            &&& forall|a: int, b: int|
                0 <= a < b < edits.len() ==> (#[trigger] edits[a]).0 != (#[trigger] edits[b]).0
        }),
    decreases results.len(),
{
    if results.len() > 0 {
        let front = results.drop_last();
        let last = results.len() - 1;
        lemma_edits_on_results(known, front);
        let before = cache::edits_on_results(known, front);
        let after = cache::edits_on_results(known, results);
        assert forall|k: int| 0 <= k < after.len() implies sets_for_one(
            known,
            results,
            #[trigger] after[k],
        ) by {
            if k < before.len() {
                assert(sets_for_one(known, front, before[k]));
                let i = choose|i: int|
                    0 <= i < front.len() && is_set_by(known, #[trigger] front[i], before[k]);
                assert(results[i] == front[i]);
            } else {
                assert(is_set_by(known, results[last], after[k]));
            }
        }
        assert forall|i: int|
            0 <= i < results.len() && cache::is_awaited(
                known,
                (#[trigger] results[i]).0.path@,
                results[i].0.fingerprint,
            ) implies after.contains(edit_for(known, results[i])) by {
            let edit = edit_for(known, results[i]);
            if i < last {
                assert(front[i] == results[i]);
                let k = choose|k: int| 0 <= k < before.len() && before[k] == edit;
                assert(after[k] == edit);
            } else {
                assert(after[before.len() as int] == edit);
            }
        }
        assert forall|a: int, b: int| 0 <= a < b < after.len() implies (#[trigger] after[a]).0 != (
        #[trigger] after[b]).0 by {
            if b == before.len() {
                assert(sets_for_one(known, front, before[a]));
                let i = choose|i: int|
                    0 <= i < front.len() && is_set_by(known, #[trigger] front[i], before[a]);
                assert(results[i] == front[i]);
            }
        }
    }
}

/// What a result sets.
pub open spec fn edit_for(
    known: Counts,
    result: (&LineCountRequest, Option<&ProjectLineCount>),
) -> (Seq<char>, Option<LineCountEntry>) {
    (
        result.0.path@,
        Some(cache::entry_on_result(known, *result.0, cache::result_of(result.1))),
    )
}

/// `edit` is what a result sets that is waited for.
pub open spec fn is_set_by(
    known: Counts,
    result: (&LineCountRequest, Option<&ProjectLineCount>),
    edit: (Seq<char>, Option<LineCountEntry>),
) -> bool {
    &&& cache::is_awaited(known, result.0.path@, result.0.fingerprint)
    &&& edit == edit_for(known, result)
}

/// `edit` is what one of the results sets.
pub open spec fn sets_for_one(
    known: Counts,
    results: Seq<(&LineCountRequest, Option<&ProjectLineCount>)>,
    edit: (Seq<char>, Option<LineCountEntry>),
) -> bool {
    exists|i: int| 0 <= i < results.len() && is_set_by(known, #[trigger] results[i], edit)
}

/// Results of requests about distinct paths: each one that is waited for sets
/// its entry, and everything else stays as it was.
pub proof fn law_results_touch_only_awaited_entries(
    known: Counts,
    results: Seq<(&LineCountRequest, Option<&ProjectLineCount>)>,
)
    requires
        distinct_requests(results),
    ensures
        cache::edited(known, cache::edits_on_results(known, results)).dom() == known.dom(),
        forall|i: int|
            0 <= i < results.len() && cache::is_awaited(
                known,
                (#[trigger] results[i]).0.path@,
                results[i].0.fingerprint,
            ) ==> cache::edited(
                known,
                cache::edits_on_results(known, results),
            )[results[i].0.path@] == cache::entry_on_result(
                known,
                *results[i].0,
                cache::result_of(results[i].1),
            ),
        forall|path: Seq<char>|
            known.contains_key(path) && (forall|i: int|
                0 <= i < results.len() && (#[trigger] results[i]).0.path@ == path
                    ==> !cache::is_awaited(known, path, results[i].0.fingerprint)) ==> (
            #[trigger] cache::edited(known, cache::edits_on_results(known, results))[path])
                == known[path],
{
    let edits = cache::edits_on_results(known, results);
    let after = cache::edited(known, edits);
    lemma_edits_on_results(known, results);
    lemma_edited(known, edits);
    assert forall|i: int|
        0 <= i < results.len() && cache::is_awaited(
            known,
            (#[trigger] results[i]).0.path@,
            results[i].0.fingerprint,
        ) implies after[results[i].0.path@] == cache::entry_on_result(
        known,
        *results[i].0,
        cache::result_of(results[i].1),
    ) by {
        let edit = edit_for(known, results[i]);
        let k = choose|k: int| 0 <= k < edits.len() && edits[k] == edit;
        assert(edits[k].1 is Some);
    }
    assert forall|path: Seq<char>| after.contains_key(path) == known.contains_key(path) by {
        if exists|k: int| 0 <= k < edits.len() && (#[trigger] edits[k]).0 == path {
            let k = choose|k: int| 0 <= k < edits.len() && (#[trigger] edits[k]).0 == path;
            assert(sets_for_one(known, results, edits[k]));
        }
    }
    assert(after.dom() =~= known.dom());
    assert forall|path: Seq<char>|
        known.contains_key(path) && (forall|i: int|
            0 <= i < results.len() && (#[trigger] results[i]).0.path@ == path
                ==> !cache::is_awaited(known, path, results[i].0.fingerprint)) implies (
    #[trigger] after[path]) == known[path] by {
        assert forall|k: int| 0 <= k < edits.len() implies (#[trigger] edits[k]).0 != path by {
            assert(sets_for_one(known, results, edits[k]));
        }
        assert(after.contains_key(path));
    }
}

} // verus!
