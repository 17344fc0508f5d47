//! What the cache makes of entries and results, and what totals are.

use crate::cache;
use crate::cache::Counts;
use crate::candidate;
use crate::candidate::Metadata;
use crate::counts;
use crate::counts::{
    EntryFingerprint, FileLineCount, LineCountEntry, LineCountRequest, LineCountState,
    LineCountSummary, LineCountTotal, ProjectLineCount, ProjectLineCountFingerprint,
};
use crate::distinct;
use crate::filter::LineCountFilter;
use crate::mtime::NANOS_PER_SECOND;
use crate::ordered_map;
use crate::queue::{MAX_ACTIVE_BATCHES, MAX_BATCH_REQUESTS};
use crate::rel_path;
use crate::store::{ACCESS_REFRESH_SECONDS, CACHE_RETENTION_SECONDS};
use crate::sum;
use crate::update;
use crate::update::MAX_CHANGED_ENTRIES;
use crate::worktree::Entry;
use vstd::prelude::*;

verus! {

/// The state of a file is its time of modification, its size and its inode, all
/// three. A count that was made agrees with an entry where all three do; an
/// entry without a time agrees with any time.
pub proof fn law_states_of_files(entry: Entry, found: ProjectLineCountFingerprint)
    ensures
        counts::fingerprint_of(entry).mtime == entry.mtime,
        counts::fingerprint_of(entry).size == entry.size,
        counts::fingerprint_of(entry).inode == entry.inode,
        counts::fingerprints_match(counts::fingerprint_of(entry), found) <==> {
            &&& entry.size == found.size
            &&& entry.inode == found.inode
            &&& entry.mtime is None || entry.mtime == Some(found.mtime)
        },
{
}

/// What the file system and a worktree's entry show of a file can be kept only
/// for a regular file that was not modified before the epoch; it is then told
/// apart by time, size and inode.
pub proof fn law_states_that_can_be_kept(metadata: Metadata, entry: Entry)
    ensures
        candidate::fingerprint_in(metadata) is Some <==> !metadata.is_dir && !metadata.is_fifo
            && metadata.mtime.seconds() >= 0,
        candidate::fingerprint_in(metadata) matches Some(state) ==> {
            &&& state.mtime == metadata.mtime
            &&& state.size == metadata.len
            &&& state.inode == metadata.inode
            &&& candidate::project_fingerprint(state).mtime == metadata.mtime
            &&& candidate::project_fingerprint(state).size == metadata.len
            &&& candidate::project_fingerprint(state).inode == metadata.inode
        },
        candidate::fingerprint_shown(entry) is Some <==> entry.mtime is Some
            && entry.mtime->0.seconds() >= 0,
        candidate::fingerprint_shown(entry) matches Some(state) ==> {
            &&& Some(state.mtime) == entry.mtime
            &&& state.size == entry.size
            &&& state.inode == entry.inode
        },
{
}

/// A result gives an entry its count, text or binary, exactly where there is one
/// and it belongs to the state that was asked for. Any other leaves the entry
/// without a count.
pub proof fn law_states_after_results(
    asked: EntryFingerprint,
    result: Option<ProjectLineCount>,
)
    ensures
        forall|lines: u64| #[trigger]
            counts::state_after(asked, result) == LineCountState::Text(lines) <==> {
                &&& result is Some
                &&& result->0.fingerprint is Some
                &&& result->0.fingerprint->0.size == asked.size
                &&& result->0.fingerprint->0.inode == asked.inode
                &&& asked.mtime is None || asked.mtime == Some(result->0.fingerprint->0.mtime)
                &&& result->0.count == Some(FileLineCount::Text(lines))
            },
        counts::state_after(asked, result) is Binary <==> {
            &&& result is Some
            &&& result->0.fingerprint is Some
            &&& result->0.fingerprint->0.size == asked.size
            &&& result->0.fingerprint->0.inode == asked.inode
            &&& asked.mtime is None || asked.mtime == Some(result->0.fingerprint->0.mtime)
            &&& result->0.count == Some(FileLineCount::Binary)
        },
        !(counts::state_after(asked, result) is Text) && !(counts::state_after(
            asked,
            result,
        ) is Binary) ==> counts::state_after(asked, result) is Unavailable,
{
}

/// A filter lets a path through exactly if it has no extension among those to
/// exclude, as it stands or in lower case, and one among those to include, where
/// there are any.
pub proof fn law_what_a_filter_admits(filter: LineCountFilter, path: Seq<char>, name: Seq<char>)
    ensures
        rel_path::extension_of(path) is None ==> (filter.admits(path) <==> forall|other: Seq<char>|
            !filter.included().contains(other)),
        rel_path::extension_of(path) == Some(name) ==> (filter.admits(path) <==> {
            &&& !filter.excluded().contains(name)
            &&& !filter.excluded().contains(crate::filter::ascii_lowercase(name))
            &&& {
                ||| filter.included().contains(name)
                ||| filter.included().contains(crate::filter::ascii_lowercase(name))
                ||| forall|other: Seq<char>| !filter.included().contains(other)
            }
        }),
{
    if forall|other: Seq<char>| !filter.included().contains(other) {
        assert(filter.included() =~= Set::<Seq<char>>::empty());
    }
}

/// What a reset makes of each entry. Files that are counted and directories that
/// are not scanned are known afterwards, with the flags of their entries, and
/// nothing else is. A file keeps what is known of it where neither its time nor
/// its size nor its inode has changed; otherwise it is pending, and its count is
/// asked for.
pub proof fn law_what_a_reset_makes_of_entries(
    filter: LineCountFilter,
    known: Counts,
    entries: Seq<&Entry>,
    i: int,
)
    requires
        distinct::distinct_paths(entries),
        0 <= i < entries.len(),
    ensures
        ({
            let entry = *entries[i];
            let path = entry.path@;
            let after = cache::counts_on_reset(filter, known, entries);
            let requests = cache::requests_on_reset(filter, known, entries);
            let counted = entry.kind is File && !entry.is_fifo && filter.admits(path);
            let unscanned = entry.kind is PendingDir || entry.kind is UnloadedDir;
            let state = EntryFingerprint {
                mtime: entry.mtime,
                size: entry.size,
                inode: entry.inode,
            };
            let unchanged = known.contains_key(path) && known[path].fingerprint == Some(state);
            &&& after.contains_key(path) <==> counted || unscanned
            &&& counted || unscanned ==> after[path].is_ignored == entry.is_ignored
                && after[path].is_hidden == entry.is_hidden
            &&& counted ==> after[path].fingerprint == Some(state)
            &&& counted && unchanged ==> after[path].state == known[path].state
            &&& counted && !unchanged ==> after[path].state is Pending
            &&& unscanned ==> after[path].fingerprint is None
            &&& entry.kind is PendingDir ==> after[path].state is Pending
            &&& entry.kind is UnloadedDir ==> after[path].state is Unscanned
            &&& requests.contains((path, state)) <==> counted && !unchanged
            &&& forall|k: int| 0 <= k < requests.len() && (#[trigger] requests[k]).0 == path
                ==> requests[k].1 == state
            &&& forall|other: Seq<char>| #[trigger]
                after.contains_key(other) ==> exists|j: int|
                    0 <= j < entries.len() && (#[trigger] entries[j]).path@ == other
        }),
{
    let entry = *entries[i];
    distinct::law_reset_keeps_what_is_there(filter, known, entries);
    distinct::lemma_requests_on_reset(filter, known, entries);
    let after = cache::counts_on_reset(filter, known, entries);
    let requests = cache::requests_on_reset(filter, known, entries);
    assert(after.contains_key(entries[i].path@) == (cache::entry_on_reset(filter, known, entry)
        is Some));
    assert forall|k: int| 0 <= k < requests.len() && (
    #[trigger] requests[k]).0 == entry.path@ implies distinct::is_asked(
        filter,
        known,
        entry,
        requests[k],
        false,
    ) by {
        assert(distinct::asks_for_one(filter, known, entries, requests[k], false));
        let j = choose|j: int|
            0 <= j < entries.len() && distinct::is_asked(
                filter,
                known,
                *#[trigger] entries[j],
                requests[k],
                false,
            );
        if j < i {
            assert(entries[j].path@ != entries[i].path@);
        } else if i < j {
            assert(entries[i].path@ != entries[j].path@);
        }
    }
    let request = (entry.path@, counts::fingerprint_of(entry));
    if requests.contains(request) {
        let k = choose|k: int| 0 <= k < requests.len() && requests[k] == request;
        assert(requests[k].0 == entry.path@);
    }
    assert forall|other: Seq<char>| #[trigger] after.contains_key(other) implies exists|j: int|
        0 <= j < entries.len() && (#[trigger] entries[j]).path@ == other by {
        assert(distinct::has_path(entries, other));
    }
}

/// What changes make of each entry. Files that are counted and directories that
/// are not scanned are known afterwards, with the flags of their entries; other
/// entries are not. A file keeps its count, or its wait for one, where neither
/// its time nor its size nor its inode has changed; otherwise, or where it was
/// left without a count, it is pending and its count is asked for. Nothing else
/// changes.
pub proof fn law_what_changes_make_of_entries(
    filter: LineCountFilter,
    known: Counts,
    entries: Seq<&Entry>,
    i: int,
)
    requires
        distinct::distinct_paths(entries),
        0 <= i < entries.len(),
    ensures
        ({
            let entry = *entries[i];
            let path = entry.path@;
            let after = cache::counts_on_change(filter, known, entries);
            let requests = cache::requests_on_change(filter, known, entries);
            let counted = entry.kind is File && !entry.is_fifo && filter.admits(path);
            let unscanned = entry.kind is PendingDir || entry.kind is UnloadedDir;
            let state = EntryFingerprint {
                mtime: entry.mtime,
                size: entry.size,
                inode: entry.inode,
            };
            let kept = {
                &&& known.contains_key(path)
                &&& known[path].fingerprint == Some(state)
                &&& !(known[path].state is Unavailable)
                &&& !(known[path].state is Unscanned)
            };
            &&& after.contains_key(path) <==> counted || unscanned
            &&& counted || unscanned ==> after[path].is_ignored == entry.is_ignored
                && after[path].is_hidden == entry.is_hidden
            &&& counted ==> after[path].fingerprint == Some(state)
            &&& counted && kept ==> after[path].state == known[path].state
            &&& counted && !kept ==> after[path].state is Pending
            &&& unscanned ==> after[path].fingerprint is None
            &&& entry.kind is PendingDir ==> after[path].state is Pending
            &&& entry.kind is UnloadedDir ==> after[path].state is Unscanned
            &&& requests.contains((path, state)) <==> counted && !kept
            &&& forall|k: int| 0 <= k < requests.len() && (#[trigger] requests[k]).0 == path
                ==> requests[k].1 == state
            &&& forall|other: Seq<char>|
                #![trigger after.contains_key(other)]
                (forall|j: int| 0 <= j < entries.len() ==> (#[trigger] entries[j]).path@ != other)
                    ==> after.contains_key(other) == known.contains_key(other) && (
                known.contains_key(other) ==> after[other] == known[other])
        }),
{
    let entry = *entries[i];
    distinct::law_changes_touch_only_their_paths(filter, known, entries);
    distinct::lemma_requests_on_change(filter, known, entries);
    let after = cache::counts_on_change(filter, known, entries);
    let requests = cache::requests_on_change(filter, known, entries);
    assert(after.contains_key(entries[i].path@) == (cache::entry_on_change(filter, known, entry)
        is Some));
    assert forall|k: int| 0 <= k < requests.len() && (
    #[trigger] requests[k]).0 == entry.path@ implies distinct::is_asked(
        filter,
        known,
        entry,
        requests[k],
        true,
    ) by {
        assert(distinct::asks_for_one(filter, known, entries, requests[k], true));
        let j = choose|j: int|
            0 <= j < entries.len() && distinct::is_asked(
                filter,
                known,
                *#[trigger] entries[j],
                requests[k],
                true,
            );
        if j < i {
            assert(entries[j].path@ != entries[i].path@);
        } else if i < j {
            assert(entries[i].path@ != entries[j].path@);
        }
    }
    let request = (entry.path@, counts::fingerprint_of(entry));
    if requests.contains(request) {
        let k = choose|k: int| 0 <= k < requests.len() && requests[k] == request;
        assert(requests[k].0 == entry.path@);
    }
    assert forall|other: Seq<char>|
        #![trigger after.contains_key(other)]
        (forall|j: int| 0 <= j < entries.len() ==> (#[trigger] entries[j]).path@
            != other) implies after.contains_key(other) == known.contains_key(other) && (
    known.contains_key(other) ==> after[other] == known[other]) by {
        assert(!distinct::has_path(entries, other));
    }
}

/// Requests come in the order of their entries, and each is about one of them.
pub proof fn law_requests_come_in_order(
    filter: LineCountFilter,
    known: Counts,
    entries: Seq<&Entry>,
)
    ensures
        is_in_order(cache::requests_on_reset(filter, known, entries), entries),
        is_in_order(cache::requests_on_change(filter, known, entries), entries),
    decreases entries.len(),
{
    if entries.len() > 0 {
        let front = entries.drop_last();
        law_requests_come_in_order(filter, known, front);
        lemma_in_order(
            cache::requests_on_reset(filter, known, front),
            cache::requests_on_reset(filter, known, entries),
            entries,
        );
        lemma_in_order(
            cache::requests_on_change(filter, known, front),
            cache::requests_on_change(filter, known, entries),
            entries,
        );
    }
}

/// One of the entries is at `first`, and one behind it at `second`.
pub open spec fn stand_in_turn(
    entries: Seq<&Entry>,
    first: Seq<char>,
    second: Seq<char>,
) -> bool {
    exists|i: int, j: int|
        0 <= i < j < entries.len() && (#[trigger] entries[i]).path@ == first && (
        #[trigger] entries[j]).path@ == second
}

/// Each request is about an entry, and a later one about a later entry.
pub open spec fn is_in_order(
    requests: Seq<(Seq<char>, EntryFingerprint)>,
    entries: Seq<&Entry>,
) -> bool {
    &&& forall|k: int|
        0 <= k < requests.len() ==> distinct::has_path(entries, (#[trigger] requests[k]).0)
    &&& forall|k: int, l: int|
        0 <= k < l < requests.len() ==> stand_in_turn(
            entries,
            (#[trigger] requests[k]).0,
            (#[trigger] requests[l]).0,
        )
}

proof fn lemma_in_order(
    before: Seq<(Seq<char>, EntryFingerprint)>,
    after: Seq<(Seq<char>, EntryFingerprint)>,
    entries: Seq<&Entry>,
)
    requires
        entries.len() > 0,
        is_in_order(before, entries.drop_last()),
        after == before || (after.len() == before.len() + 1 && after.drop_last() =~= before
            && after.last().0 == entries.last().path@),
    ensures
        is_in_order(after, entries),
{
    let front = entries.drop_last();
    let last = entries.len() - 1;
    assert forall|k: int| 0 <= k < before.len() implies after[k] == before[k] by {
        assert(after.drop_last()[k] == after[k] || after == before);
    }
    assert forall|k: int| 0 <= k < after.len() implies distinct::has_path(
        entries,
        (#[trigger] after[k]).0,
    ) by {
        if k < before.len() {
            assert(distinct::has_path(front, before[k].0));
            let i = choose|i: int|
                0 <= i < front.len() && (#[trigger] front[i]).path@ == before[k].0;
            assert(entries[i].path@ == after[k].0);
        } else {
            assert(entries[last].path@ == after[k].0);
        }
    }
    assert forall|k: int, l: int| 0 <= k < l < after.len() implies stand_in_turn(
        entries,
        (#[trigger] after[k]).0,
        (#[trigger] after[l]).0,
    ) by {
        if l < before.len() {
            assert(stand_in_turn(front, before[k].0, before[l].0));
            let (i, j) = choose|i: int, j: int|
                0 <= i < j < front.len() && (#[trigger] front[i]).path@ == before[k].0 && (
                #[trigger] front[j]).path@ == before[l].0;
            assert(entries[i].path@ == after[k].0 && entries[j].path@ == after[l].0);
        } else {
            assert(distinct::has_path(front, before[k].0));
            let i = choose|i: int|
                0 <= i < front.len() && (#[trigger] front[i]).path@ == before[k].0;
            assert(entries[i].path@ == after[k].0 && entries[last].path@ == after[l].0);
        }
    }
}

/// What results make of entries: one that is pending in the state that was asked
/// for gets its answer and keeps all else; any other stays as it is.
pub proof fn law_what_results_make_of_entries(
    known: Counts,
    results: Seq<(&LineCountRequest, Option<&ProjectLineCount>)>,
    i: int,
)
    requires
        distinct::distinct_requests(results),
        0 <= i < results.len(),
    ensures
        ({
            let path = results[i].0.path@;
            let after = cache::edited(known, cache::edits_on_results(known, results));
            let waiting = known.contains_key(path) && known[path].state is Pending
                && known[path].fingerprint == Some(results[i].0.fingerprint);
            let answer = match results[i].1 {
                Some(result) => Some(*result),
                None => None,
            };
            &&& after.dom() == known.dom()
            &&& waiting ==> {
                &&& after[path].state == counts::state_after(results[i].0.fingerprint, answer)
                &&& after[path].fingerprint == known[path].fingerprint
                &&& after[path].is_ignored == known[path].is_ignored
                &&& after[path].is_hidden == known[path].is_hidden
            }
            &&& !waiting && known.contains_key(path) ==> after[path] == known[path]
            &&& forall|other: Seq<char>|
                known.contains_key(other) && (forall|j: int|
                    0 <= j < results.len() ==> (#[trigger] results[j]).0.path@ != other)
                    ==> #[trigger] after[other] == known[other]
            &&& cache::is_awaited(known, path, results[i].0.fingerprint) <==> waiting
        }),
{
    distinct::law_results_touch_only_awaited_entries(known, results);
    let path = results[i].0.path@;
    let after = cache::edited(known, cache::edits_on_results(known, results));
    if known.contains_key(path) && !cache::is_awaited(known, path, results[i].0.fingerprint) {
        assert forall|j: int|
            0 <= j < results.len() && (#[trigger] results[j]).0.path@ == path implies !cache::is_awaited(
            known,
            path,
            results[j].0.fingerprint,
        ) by {
            if j < i {
                assert(results[j].0.path@ != results[i].0.path@);
            } else if i < j {
                assert(results[i].0.path@ != results[j].0.path@);
            }
        }
        assert(after[path] == known[path]);
    }
}

/// A worktree that is not known has no entries.
pub proof fn law_counts_of_a_worktree(worktrees: Map<usize, Counts>, id: usize)
    ensures
        worktrees.contains_key(id) ==> cache::counts_in(worktrees, id) == worktrees[id],
        !worktrees.contains_key(id) ==> forall|path: Seq<char>| !(#[trigger] cache::counts_in(
            worktrees,
            id,
        ).contains_key(path)),
{
}

/// The total of a directory, entry by entry. With no entries it is zero and not
/// partial. One more entry that lies at or below the directory, and is not hidden
/// for being ignored or hidden, adds its lines if it is text, nothing if it is
/// binary, and makes the total partial if it has no count, whether it is a file
/// or a directory; as long as no line is counted, there is then no total. Any
/// other entry changes nothing.
pub proof fn law_total_entry_by_entry(
    known: Counts,
    path: Seq<char>,
    entry: LineCountEntry,
    directory: Seq<char>,
    hide_ignored: bool,
    hide_hidden: bool,
)
    requires
        known.dom().finite(),
        !known.contains_key(path),
    ensures
        cache::directory_total(Map::empty(), directory, hide_ignored, hide_hidden) == Some(
            LineCountTotal { lines: 0, is_partial: false },
        ),
        ({
            let before = cache::directory_total(known, directory, hide_ignored, hide_hidden);
            let after = cache::directory_total(
                known.insert(path, entry),
                directory,
                hide_ignored,
                hide_hidden,
            );
            let shown = rel_path::lies_under(path, directory) && !(hide_ignored
                && entry.is_ignored) && !(hide_hidden && entry.is_hidden);
            &&& !shown || entry.state is Binary ==> after == before
            &&& shown ==> (entry.state matches LineCountState::Text(lines) ==> {
                &&& before is None && lines == 0 ==> after is None
                &&& before is None && lines > 0 ==> after == Some(
                    LineCountTotal { lines, is_partial: true },
                )
                &&& before matches Some(total) ==> after == Some(
                    LineCountTotal {
                        lines: if total.lines + lines <= u64::MAX {
                            (total.lines + lines) as u64
                        } else {
                            u64::MAX
                        },
                        is_partial: total.is_partial,
                    },
                )
            })
            &&& shown && !(entry.state is Text) && !(entry.state is Binary) ==> after == (
            match before {
                Some(total) if total.lines > 0 => Some(
                    LineCountTotal { lines: total.lines, is_partial: true },
                ),
                _ => None::<LineCountTotal>,
            })
        }),
{
    let lines = cache::lines_under(directory, hide_ignored, hide_hidden);
    let missing = cache::incomplete_under(directory, hide_ignored, hide_hidden);
    let more = known.insert(path, entry);
    sum::lemma_sum_remove(more, path, lines);
    sum::lemma_sum_remove(more, path, missing);
    assert(more.remove(path) =~= known);
}

/// The lines of a file, whatever its flags: its count once it is text, and nothing
/// before, or where it is binary or without a count. It is what a directory with
/// that file alone would show.
pub proof fn law_total_of_a_file(known: Counts, path: Seq<char>, lines: u64)
    ensures
        known.contains_key(path) && known[path].state == LineCountState::Text(lines)
            ==> cache::file_total(known, path) == Some(
            LineCountTotal { lines, is_partial: false },
        ) && cache::directory_total(map![path => known[path]], path, false, false)
            == cache::file_total(known, path),
        !known.contains_key(path) || !(known[path].state is Text) ==> cache::file_total(
            known,
            path,
        ) is None,
{
    let empty = Map::<Seq<char>, LineCountEntry>::empty();
    law_total_entry_by_entry(empty, path, known[path], path, false, false);
    assert(path.take(path.len() as int) =~= path);
    assert(map![path => known[path]] =~= empty.insert(path, known[path]));
}

/// Hidden entries of any kind count for nothing: a total with ignored or hidden
/// entries left out is that of the entries that are neither.
pub proof fn law_hidden_entries_do_not_count(
    known: Counts,
    directory: Seq<char>,
    hide_ignored: bool,
    hide_hidden: bool,
)
    requires
        known.dom().finite(),
    ensures
        cache::directory_total(known, directory, hide_ignored, hide_hidden)
            == cache::directory_total(
            ordered_map::restricted(
                known,
                |path: Seq<char>, entry: LineCountEntry|
                    !(hide_ignored && entry.is_ignored) && !(hide_hidden && entry.is_hidden),
            ),
            directory,
            false,
            false,
        ),
    decreases known.dom().len(),
{
    let keep = |path: Seq<char>, entry: LineCountEntry|
        !(hide_ignored && entry.is_ignored) && !(hide_hidden && entry.is_hidden);
    let left = ordered_map::restricted(known, keep);
    assert(left.dom().subset_of(known.dom()));
    vstd::set_lib::lemma_set_subset_finite(known.dom(), left.dom());
    if known.dom().len() == 0 {
        assert(known =~= Map::<Seq<char>, LineCountEntry>::empty()) by {
            known.dom().lemma_len0_is_empty();
        }
        assert(left =~= known);
    } else {
        let path = known.dom().choose();
        assert(known.contains_key(path));
        let rest = known.remove(path);
        let entry = known[path];
        law_hidden_entries_do_not_count(rest, directory, hide_ignored, hide_hidden);
        let left_rest = ordered_map::restricted(rest, keep);
        assert(left_rest.dom().subset_of(rest.dom()));
        vstd::set_lib::lemma_set_subset_finite(rest.dom(), left_rest.dom());
        law_total_entry_by_entry(rest, path, entry, directory, hide_ignored, hide_hidden);
        law_total_entry_by_entry(left_rest, path, entry, directory, false, false);
        assert(rest.insert(path, entry) =~= known);
        if keep(path, entry) {
            assert(left =~= left_rest.insert(path, entry));
        } else {
            assert(left =~= left_rest);
        }
    }
}

/// What stays of a map are the entries that are wanted, as they were, and a
/// listing spells out the map that holds just its pairs.
pub proof fn law_restricted_maps(
    m: Map<Seq<char>, LineCountEntry>,
    wanted: spec_fn(Seq<char>, LineCountEntry) -> bool,
    path: Seq<char>,
)
    ensures
        ordered_map::restricted(m, wanted).contains_key(path) <==> m.contains_key(path) && wanted(
            path,
            m[path],
        ),
        ordered_map::restricted(m, wanted).contains_key(path) ==> ordered_map::restricted(
            m,
            wanted,
        )[path] == m[path],
{
}

/// The paths that have changed are those of any of the rounds, and as many
/// changes are kept as the rounds hold together.
pub proof fn law_rounds_of_changes(rounds: Seq<Seq<Seq<char>>>, round: Seq<Seq<char>>)
    ensures
        forall|path: Seq<char>| #[trigger]
            update::changed_paths(rounds).contains(path) <==> exists|i: int|
                0 <= i < rounds.len() && (#[trigger] rounds[i]).contains(path),
        update::total_len(Seq::empty()) == 0,
        update::total_len(rounds.push(round)) == update::total_len(rounds) + round.len(),
    decreases rounds.len(),
{
    assert(rounds.push(round).drop_last() =~= rounds);
    if rounds.len() > 0 {
        let front = rounds.drop_last();
        let last = rounds.len() - 1;
        law_rounds_of_changes(front, round);
        assert forall|path: Seq<char>| #[trigger]
            update::changed_paths(rounds).contains(path) <==> exists|i: int|
                0 <= i < rounds.len() && (#[trigger] rounds[i]).contains(path) by {
            if update::changed_paths(front).contains(path) {
                let i = choose|i: int| 0 <= i < front.len() && (#[trigger] front[i]).contains(path);
                assert(rounds[i] == front[i]);
            }
            if rounds[last].contains(path) {
                assert(rounds.last().to_set().contains(path));
            }
            if exists|i: int| 0 <= i < rounds.len() && (#[trigger] rounds[i]).contains(path) {
                let i = choose|i: int|
                    0 <= i < rounds.len() && (#[trigger] rounds[i]).contains(path);
                if i < last {
                    assert(front[i] == rounds[i]);
                }
            }
        }
    }
}

/// Sums are held as far as the fields can hold them. A total is shown unless
/// nothing but missing counts is there, and it is partial exactly where a count
/// is missing. Each way of hiding entries has its own part of a summary.
pub proof fn law_sums_and_parts(lines: nat, missing: nat, summary: LineCountSummary)
    ensures
        counts::capped(lines, missing).lines == (if lines <= u64::MAX {
            lines
        } else {
            u64::MAX as nat
        }),
        counts::capped(lines, missing).incomplete_entries == (if missing <= u32::MAX {
            missing
        } else {
            u32::MAX as nat
        }),
        counts::resolved(counts::capped(lines, missing)) is None <==> lines == 0 && missing > 0,
        counts::resolved(counts::capped(lines, missing)) matches Some(total) ==> {
            &&& total.lines == counts::capped(lines, missing).lines
            &&& total.is_partial <==> missing > 0
        },
        summary.part(false, false) == summary.all,
        summary.part(true, false) == summary.non_ignored,
        summary.part(false, true) == summary.non_hidden,
        summary.part(true, true) == summary.visible,
{
}

/// What an entry adds: the lines of a text and nothing else, and one missing count
/// for whatever is neither text nor binary. It is shown unless it is ignored and
/// ignored ones are hidden, or hidden and hidden ones are.
pub proof fn law_what_an_entry_adds(entry: LineCountEntry, hide_ignored: bool, hide_hidden: bool)
    ensures
        entry.state matches LineCountState::Text(lines) ==> counts::lines_of(entry) == lines,
        !(entry.state is Text) ==> counts::lines_of(entry) == 0,
        counts::incompleteness_of(entry) == 0 <==> entry.state is Text || entry.state is Binary,
        counts::incompleteness_of(entry) <= 1,
        counts::is_shown(entry, hide_ignored, hide_hidden) <==> (entry.is_ignored
            ==> !hide_ignored) && (entry.is_hidden ==> !hide_hidden),
{
}

/// The limits: four batches at a time of two thousand and forty-eight requests
/// each, thirty-two thousand seven hundred and sixty-eight changes, ninety days
/// of retention, a day between notes of an access, and a thousand million
/// nanoseconds to the second.
pub proof fn law_limits()
    ensures
        MAX_ACTIVE_BATCHES == 4,
        MAX_BATCH_REQUESTS == 2048,
        MAX_CHANGED_ENTRIES == 32768,
        CACHE_RETENTION_SECONDS == 7_776_000,
        ACCESS_REFRESH_SECONDS == 86_400,
        NANOS_PER_SECOND == 1_000_000_000,
{
}

} // verus!
