//! What counting makes of candidates, one by one, and what is kept of it.

use crate::candidate::{FileFingerprint, LineCountCandidate, Metadata};
use crate::clock;
use crate::counting;
use crate::counting::{CountEvent, CountStep, CountedCandidate};
use crate::counts::FileLineCount;
use crate::mtime::MTime;
use crate::rel_path;
use crate::rows;
use crate::rows::{Counted, Kept, LineCountRow, StoreError};
use crate::store;
use crate::store::LoadedWorktrees;
use crate::transaction;
use crate::transaction::{RollbackCause, StepResult, TransactionOutcome, TransactionStep};
use vstd::prelude::*;

verus! {

/// Candidates are parted one by one. One whose path is among the kept counts has
/// a result with that count, whatever kind of count it is, and with its own time,
/// size and inode; any other is still to be counted. Both keep their order.
pub proof fn law_candidates_are_parted_one_by_one(
    candidates: Seq<LineCountCandidate>,
    candidate: LineCountCandidate,
    kept: Map<Seq<char>, FileLineCount>,
)
    ensures
        counting::kept_results(Seq::empty(), kept).len() == 0,
        counting::misses_among(Seq::empty(), kept).len() == 0,
        ({
            let results = counting::kept_results(candidates, kept);
            let misses = counting::misses_among(candidates, kept);
            let more_results = counting::kept_results(candidates.push(candidate), kept);
            let more_misses = counting::misses_among(candidates.push(candidate), kept);
            &&& kept.contains_key(candidate.path@) ==> {
                &&& more_misses == misses
                &&& more_results.len() == results.len() + 1
                &&& more_results.drop_last() == results
                &&& more_results.last().path == candidate.path
                &&& more_results.last().count == Some(kept[candidate.path@])
                &&& more_results.last().fingerprint is Some <==> candidate.fingerprint is Some
                &&& candidate.fingerprint matches Some(seen) ==> {
                    &&& more_results.last().fingerprint->0.mtime == seen.mtime
                    &&& more_results.last().fingerprint->0.size == seen.size
                    &&& more_results.last().fingerprint->0.inode == seen.inode
                }
            }
            &&& !kept.contains_key(candidate.path@) ==> {
                &&& more_misses == misses.push(candidate)
                &&& more_results == results
            }
        }),
{
    reveal(Seq::filter);
    assert(candidates.push(candidate).drop_last() =~= candidates);
    let results = counting::kept_results(candidates, kept);
    let more_results = counting::kept_results(candidates.push(candidate), kept);
    if kept.contains_key(candidate.path@) {
        assert(more_results.drop_last() =~= results);
    }
}

/// A candidate that was looked at has a result with its path, the count that was
/// made and the time, size and inode in which the file was found. The results
/// are those for kept counts followed by these.
pub proof fn law_results_of_counting(
    candidates: Seq<LineCountCandidate>,
    kept: Map<Seq<char>, FileLineCount>,
    counted: Seq<CountedCandidate>,
    i: int,
)
    requires
        0 <= i < counted.len(),
    ensures
        ({
            let before = counting::kept_results(candidates, kept);
            let all = counting::all_results(candidates, kept, counted);
            let result = all[before.len() + i];
            &&& all.len() == before.len() + counted.len()
            &&& all.take(before.len() as int) == before
            &&& result == counting::counted_result(counted[i])
            &&& result.path == counted[i].candidate.path
            &&& result.count == counted[i].count
            &&& result.fingerprint is Some <==> counted[i].fingerprint is Some
            &&& counted[i].fingerprint matches Some(state) ==> {
                &&& result.fingerprint->0.mtime == state.mtime
                &&& result.fingerprint->0.size == state.size
                &&& result.fingerprint->0.inode == state.inode
            }
        }),
{
    let before = counting::kept_results(candidates, kept);
    assert(counting::all_results(candidates, kept, counted).take(before.len() as int) =~= before);
}

/// Counts found in the store are gone by as they are; without any, none is.
pub proof fn law_counts_to_go_by(found: Map<Seq<char>, FileLineCount>, path: Seq<char>)
    ensures
        counting::counts_to_use(Some(found)) == found,
        !counting::counts_to_use(None).contains_key(path),
{
}

/// The steps of counting. A file is counted only if it is a regular one, not
/// modified before the epoch, whose time, size and inode are those that the
/// candidate was seen with, where it was seen with any. The count stands only if
/// the file shows the same time, size and inode afterwards. What the file shows
/// at the end is reported in any case.
pub proof fn law_steps_of_counting(
    seen: Option<FileFingerprint>,
    state: FileFingerprint,
    count: Option<FileLineCount>,
    metadata: Metadata,
)
    ensures
        ({
            let countable = !metadata.is_dir && !metadata.is_fifo && metadata.mtime.seconds() >= 0;
            let shown = FileFingerprint {
                mtime: metadata.mtime,
                size: metadata.len,
                inode: metadata.inode,
            };
            let looked = CountEvent::Looked(Some(metadata));
            let gone = CountEvent::Looked(None);
            &&& counting::next_step(seen, CountStep::LookBefore, gone) == CountStep::Done(
                None,
                None,
            )
            &&& !countable ==> counting::next_step(seen, CountStep::LookBefore, looked)
                == CountStep::Done(None, None)
            &&& countable && (seen is None || seen == Some(shown)) ==> counting::next_step(
                seen,
                CountStep::LookBefore,
                looked,
            ) == CountStep::Count(shown)
            &&& countable && seen is Some && seen != Some(shown) ==> counting::next_step(
                seen,
                CountStep::LookBefore,
                looked,
            ) == CountStep::Done(None, Some(shown))
            &&& counting::next_step(seen, CountStep::Count(state), CountEvent::Counted(count))
                == CountStep::LookAfter(state, count)
            &&& counting::next_step(seen, CountStep::LookAfter(state, count), gone)
                == CountStep::Done(None, None)
            &&& !countable ==> counting::next_step(
                seen,
                CountStep::LookAfter(state, count),
                looked,
            ) == CountStep::Done(None, None)
            &&& countable && shown == state ==> counting::next_step(
                seen,
                CountStep::LookAfter(state, count),
                looked,
            ) == CountStep::Done(count, Some(state))
            &&& countable && shown != state ==> counting::next_step(
                seen,
                CountStep::LookAfter(state, count),
                looked,
            ) == CountStep::Done(None, Some(shown))
        }),
{
}

/// An event that does not belong to a step leaves it as it is, and what is done
/// stays done.
pub proof fn law_events_out_of_turn(
    seen: Option<FileFingerprint>,
    state: FileFingerprint,
    count: Option<FileLineCount>,
    found: Option<FileFingerprint>,
    metadata: Option<Metadata>,
    late: Option<FileLineCount>,
    event: CountEvent,
)
    ensures
        counting::next_step(seen, CountStep::LookBefore, CountEvent::Counted(late))
            == CountStep::LookBefore,
        counting::next_step(seen, CountStep::Count(state), CountEvent::Looked(metadata))
            == CountStep::Count(state),
        counting::next_step(
            seen,
            CountStep::LookAfter(state, count),
            CountEvent::Counted(late),
        ) == CountStep::LookAfter(state, count),
        counting::next_step(seen, CountStep::Done(count, found), event) == CountStep::Done(
            count,
            found,
        ),
{
}

/// Counts worth keeping are picked one by one: those that were made, of files
/// whose state was found and that the worktree had seen in one. They are kept
/// for the state that was found.
pub proof fn law_counts_worth_keeping(counted: Seq<CountedCandidate>, one: CountedCandidate)
    ensures
        counting::cacheable_among(Seq::empty()).len() == 0,
        ({
            let before = counting::cacheable_among(counted);
            let after = counting::cacheable_among(counted.push(one));
            let worth = one.count is Some && one.fingerprint is Some
                && one.candidate.fingerprint is Some;
            &&& !worth ==> after == before
            &&& worth ==> {
                &&& after.len() == before.len() + 1
                &&& after.drop_last() == before
                &&& after.last().0.path == one.candidate.path
                &&& after.last().0.abs_path == one.candidate.abs_path
                &&& after.last().0.fingerprint == one.fingerprint
                &&& Some(after.last().1) == one.count
            }
        }),
{
    assert(counted.push(one).drop_last() =~= counted);
    let before = counting::cacheable_among(counted);
    let after = counting::cacheable_among(counted.push(one));
    if one.count is Some && one.fingerprint is Some && one.candidate.fingerprint is Some {
        assert(after.drop_last() =~= before);
    }
}

/// What is wrong with a row: a path that is not in normal form first, then a time
/// before the epoch, then a text without a count; and of rows, what is wrong with
/// the first that has something wrong.
pub proof fn law_errors_of_rows(rows: Seq<LineCountRow>, row: LineCountRow)
    ensures
        rows::row_error(row) == Some(StoreError::InvalidPath) <==> !rel_path::is_normal(row.path@),
        rows::row_error(row) == Some(StoreError::NegativeMtime) <==> rel_path::is_normal(row.path@)
            && row.mtime_seconds < 0,
        rows::row_error(row) == Some(StoreError::MissingCount) <==> rel_path::is_normal(row.path@)
            && row.mtime_seconds >= 0 && !row.is_binary && row.line_count is None,
        rows::row_error(row) is None <==> rel_path::is_normal(row.path@) && row.mtime_seconds >= 0
            && (row.is_binary || row.line_count is Some),
        rows::first_error(Seq::empty()) is None,
        rows::first_error(rows) is Some ==> rows::first_error(rows.push(row))
            == rows::first_error(rows),
        rows::first_error(rows) is None ==> rows::first_error(rows.push(row)) == rows::row_error(
            row,
        ),
{
    assert(rows.push(row).drop_last() =~= rows);
}

/// A row holds a time, a size, an inode and a count; whole seconds among its
/// nanoseconds are carried over. Of rows at the same path the last one counts.
pub proof fn law_what_rows_hold(rows: Seq<LineCountRow>, row: LineCountRow)
    requires
        rows::row_error(row) is None,
        rows::time_fits(row),
    ensures
        rows::kept_in_rows(Seq::empty()).dom() == Set::<Seq<char>>::empty(),
        ({
            let before = rows::kept_in_rows(rows);
            let after = rows::kept_in_rows(rows.push(row));
            let held = after[row.path@];
            &&& after.dom() == before.dom().insert(row.path@)
            &&& forall|path: Seq<char>|
                path != row.path@ && before.contains_key(path) ==> #[trigger] after[path]
                    == before[path]
            &&& held.fingerprint.mtime.seconds() == row.mtime_seconds + row.mtime_nanos
                / 1_000_000_000
            &&& held.fingerprint.mtime.nanos() == row.mtime_nanos % 1_000_000_000
            &&& held.fingerprint.size == row.size
            &&& held.fingerprint.inode == row.inode
            &&& row.is_binary ==> held.count is Binary
            &&& !row.is_binary ==> Some(held.count) == Some(
                FileLineCount::Text(row.line_count->0),
            )
        }),
{
    assert(rows.push(row).drop_last() =~= rows);
    assert(rows::kept_in_rows(Seq::empty()).dom() =~= Set::<Seq<char>>::empty());
    MTime::lemma_at(
        row.mtime_seconds + row.mtime_nanos / 1_000_000_000,
        (row.mtime_nanos % 1_000_000_000) as int,
    );
    assert(rows::kept_in_rows(rows.push(row)).dom() =~= rows::kept_in_rows(rows).dom().insert(
        row.path@,
    ));
}

/// Times are looked at one row after the other, up to the first row with an
/// error: that row, and what follows it, may have any time.
pub proof fn law_times_count_up_to_the_first_error(rows: Seq<LineCountRow>, row: LineCountRow)
    ensures
        rows::times_fit(Seq::empty()),
        rows::first_error(rows) is None && rows::row_error(row) is None ==> (rows::times_fit(
            rows.push(row),
        ) <==> rows::times_fit(rows) && row.mtime_seconds + row.mtime_nanos / 1_000_000_000
            <= i64::MAX),
        rows::first_error(rows) is Some || rows::row_error(row) is Some ==> (rows::times_fit(
            rows.push(row),
        ) <==> rows::times_fit(rows)),
{
    let all = rows.push(row);
    let last = rows.len() as int;
    assert(all.take(last + 1) =~= all);
    assert(all.drop_last() =~= rows);
    assert(all[last] == row);
    assert forall|i: int| 0 <= i < last implies all.take(i + 1) == #[trigger] rows.take(i + 1)
        && all[i] == rows[i] by {
        assert(all.take(i + 1) =~= rows.take(i + 1));
    }
    if rows::times_fit(all) {
        assert forall|i: int|
            #![trigger rows[i]]
            0 <= i < rows.len() && rows::first_error(
                rows.take(i + 1),
            ) is None implies rows::time_fits(rows[i]) by {
            assert(all.take(i + 1) == rows.take(i + 1));
            assert(all[i] == rows[i]);
        }
    }
    if rows::times_fit(rows) {
        assert forall|i: int|
            #![trigger all[i]]
            0 <= i < last && rows::first_error(
                all.take(i + 1),
            ) is None implies rows::time_fits(all[i]) by {
            assert(all.take(i + 1) == rows.take(i + 1));
            assert(all[i] == rows[i]);
        }
    }
}

/// The times of rows without errors fit exactly if each of them does.
pub proof fn law_times_of_rows(rows: Seq<LineCountRow>)
    requires
        forall|i: int| 0 <= i < rows.len() ==> rows::row_error(#[trigger] rows[i]) is None,
    ensures
        rows::times_fit(rows) <==> forall|i: int|
            0 <= i < rows.len() ==> (#[trigger] rows[i]).mtime_seconds + rows[i].mtime_nanos
                / 1_000_000_000 <= i64::MAX,
{
    assert forall|i: int| 0 <= i <= rows.len() implies rows::first_error(
        #[trigger] rows.take(i),
    ) is None by {
        lemma_no_error(rows, i);
    }
    if rows::times_fit(rows) {
        assert forall|i: int| 0 <= i < rows.len() implies (#[trigger] rows[i]).mtime_seconds
            + rows[i].mtime_nanos / 1_000_000_000 <= i64::MAX by {
            assert(rows::first_error(rows.take(i + 1)) is None);
            assert(rows::time_fits(rows[i]));
        }
    }
}

proof fn lemma_no_error(rows: Seq<LineCountRow>, i: int)
    requires
        forall|i: int| 0 <= i < rows.len() ==> rows::row_error(#[trigger] rows[i]) is None,
        0 <= i <= rows.len(),
    ensures
        rows::first_error(rows.take(i)) is None,
    decreases i,
{
    if i > 0 {
        lemma_no_error(rows, i - 1);
        assert(rows.take(i).drop_last() =~= rows.take(i - 1));
        assert(rows.take(i).last() == rows[i - 1]);
    }
}

/// What is put into rows, count by count: the path, time, size and inode of a
/// candidate that was seen in some state, the lines of a text, and whether it is
/// binary. The same is remembered, in place of what was at the path. A candidate
/// that was seen in none leaves no trace.
pub proof fn law_what_is_kept(kept: Kept, counts: Seq<Counted>, one: Counted)
    requires
        one.0.fingerprint matches Some(state) ==> state.mtime.normal(),
    ensures
        rows::rows_of(Seq::empty()).len() == 0,
        rows::remembered(kept, Seq::empty()) == kept,
        ({
            let before = rows::rows_of(counts);
            let after = rows::rows_of(counts.push(one));
            let row = after.last();
            let memory = rows::remembered(kept, counts);
            let more = rows::remembered(kept, counts.push(one));
            &&& one.0.fingerprint is None ==> after == before && more == memory
            &&& one.0.fingerprint matches Some(state) ==> {
                &&& after.len() == before.len() + 1
                &&& after.drop_last() == before
                &&& row.0 == one.0.path@
                &&& state.mtime.seconds() >= 0 ==> row.1.mtime_seconds == state.mtime.seconds()
                &&& row.1.mtime_nanos == state.mtime.nanos()
                &&& row.1.size == state.size
                &&& row.1.inode == state.inode
                &&& row.1.is_binary <==> one.1 is Binary
                &&& one.1 is Binary ==> row.1.line_count is None
                &&& one.1 matches FileLineCount::Text(lines) ==> row.1.line_count == Some(lines)
                &&& more.dom() == memory.dom().insert(one.0.path@)
                &&& more[one.0.path@].fingerprint == state
                &&& more[one.0.path@].count == one.1
                &&& forall|path: Seq<char>|
                    path != one.0.path@ && memory.contains_key(path) ==> #[trigger] more[path]
                        == memory[path]
            }
        }),
        rows::times_persist(counts.push(one)) <==> rows::times_persist(counts) && (
        one.0.fingerprint is None || one.0.fingerprint->0.mtime.seconds() >= 0),
        rows::times_persist(Seq::empty()),
{
    let all = counts.push(one);
    assert(all.drop_last() =~= counts);
    assert(all[counts.len() as int] == one);
    assert forall|i: int| 0 <= i < counts.len() implies all[i] == counts[i] by {}
    if let Some(state) = one.0.fingerprint {
        state.mtime.lemma_determined();
        assert(rows::rows_of(all).drop_last() =~= rows::rows_of(counts));
        assert(rows::remembered(kept, all).dom() =~= rows::remembered(kept, counts).dom().insert(
            one.0.path@,
        ));
    }
    if rows::times_persist(all) {
        assert forall|i: int| 0 <= i < counts.len() implies ((
        #[trigger] counts[i]).0.fingerprint matches Some(fingerprint)
            ==> fingerprint.mtime.seconds() >= 0) by {
            assert(all[i] == counts[i]);
        }
        assert(all[counts.len() as int].0.fingerprint == one.0.fingerprint);
    }
}

/// When a worktree is loaded. An access is noted where there is nothing in memory
/// or a day has passed since the last note; rows are read where there is nothing
/// in memory or the database has another version. What was read replaces what
/// was known, and all else stays.
pub proof fn law_when_a_worktree_is_loaded(
    loaded: LoadedWorktrees,
    root: Seq<u8>,
    other: Seq<u8>,
    now: i64,
    data_version: i64,
    read: Kept,
)
    requires
        other != root,
    ensures
        ({
            let plan = store::plan_for(loaded, root, now, data_version);
            let after = store::after_load(loaded, root, now, data_version, read);
            let there = loaded.contains_key(root);
            &&& plan.must_refresh_access <==> !there || now - loaded[root].last_accessed >= 86_400
            &&& plan.must_reload <==> !there || loaded[root].data_version != data_version
            &&& after.contains_key(root)
            &&& after[root].data_version == data_version
            &&& after[root].kept == (if plan.must_reload {
                read
            } else {
                loaded[root].kept
            })
            &&& after[root].last_accessed == (if plan.must_reload || plan.must_refresh_access {
                now
            } else {
                loaded[root].last_accessed
            })
            &&& after.contains_key(other) == loaded.contains_key(other)
            &&& loaded.contains_key(other) ==> after[other] == loaded[other]
        }),
{
}

/// A kept count is found exactly for a candidate that was seen with the very time,
/// size and inode for which it is kept, and it is found as it is kept.
pub proof fn law_which_counts_are_found(
    kept: Kept,
    candidates: Seq<LineCountCandidate>,
    path: Seq<char>,
)
    ensures
        store::hits(kept, candidates).contains_key(path) <==> exists|i: int|
            0 <= i < candidates.len() && (#[trigger] candidates[i]).path@ == path
                && candidates[i].fingerprint is Some && kept.contains_key(path)
                && kept[path].fingerprint.mtime == candidates[i].fingerprint->0.mtime
                && kept[path].fingerprint.size == candidates[i].fingerprint->0.size
                && kept[path].fingerprint.inode == candidates[i].fingerprint->0.inode,
        store::hits(kept, candidates).contains_key(path) ==> store::hits(kept, candidates)[path]
            == kept[path].count,
{
    if store::hits(kept, candidates).contains_key(path) {
        let i = choose|i: int|
            0 <= i < candidates.len() && (#[trigger] candidates[i]).path@ == path
                && store::is_hit(kept, candidates[i]);
        assert(candidates[i].path@ == path);
    }
    if exists|i: int|
        0 <= i < candidates.len() && (#[trigger] candidates[i]).path@ == path
            && candidates[i].fingerprint is Some && kept.contains_key(path)
            && kept[path].fingerprint.mtime == candidates[i].fingerprint->0.mtime
            && kept[path].fingerprint.size == candidates[i].fingerprint->0.size
            && kept[path].fingerprint.inode == candidates[i].fingerprint->0.inode {
        let i = choose|i: int|
            0 <= i < candidates.len() && (#[trigger] candidates[i]).path@ == path
                && candidates[i].fingerprint is Some && kept.contains_key(path)
                && kept[path].fingerprint.mtime == candidates[i].fingerprint->0.mtime
                && kept[path].fingerprint.size == candidates[i].fingerprint->0.size
                && kept[path].fingerprint.inode == candidates[i].fingerprint->0.inode;
        assert(store::is_hit(kept, candidates[i]));
    }
}

/// Storing and reconciling succeed exactly where all of their conditions hold, and
/// then change what is kept of their worktree and nothing else.
pub proof fn law_when_counts_are_remembered(
    loaded: LoadedWorktrees,
    root: Seq<u8>,
    other: Seq<u8>,
    counts: Seq<Counted>,
    stale_paths: Seq<Seq<char>>,
    valid: Set<Seq<char>>,
    outcome: TransactionOutcome,
)
    requires
        other != root,
    ensures
        store::store_error(loaded, root, counts, outcome) is None <==> counts.len() == 0 || (
        rows::times_persist(counts) && outcome is Committed && loaded.contains_key(root)),
        store::store_error(loaded, root, counts, outcome) == Some(StoreError::MtimeBeforeEpoch)
            <==> counts.len() > 0 && !rows::times_persist(counts),
        store::store_error(loaded, root, counts, outcome) == Some(StoreError::NotCommitted)
            <==> counts.len() > 0 && rows::times_persist(counts) && outcome !is Committed,
        store::store_error(loaded, root, counts, outcome) == Some(StoreError::NotLoaded)
            <==> counts.len() > 0 && rows::times_persist(counts) && outcome is Committed
            && !loaded.contains_key(root),
        store::reconcile_error(loaded, root, stale_paths, outcome) is None
            <==> loaded.contains_key(root) && (stale_paths.len() == 0 || outcome is Committed),
        store::reconcile_error(loaded, root, stale_paths, outcome) == Some(
            StoreError::NotLoaded,
        ) <==> !loaded.contains_key(root),
        store::reconcile_error(loaded, root, stale_paths, outcome) == Some(
            StoreError::NotCommitted,
        ) <==> loaded.contains_key(root) && stale_paths.len() > 0 && outcome !is Committed,
        ({
            let stored = store::after_store(loaded, root, counts, outcome);
            let reconciled = store::after_reconcile(loaded, root, stale_paths, outcome);
            &&& counts.len() > 0 && store::store_error(loaded, root, counts, outcome) is None ==> {
                &&& stored.contains_key(root)
                &&& stored[root].kept == rows::remembered(loaded[root].kept, counts)
                &&& stored[root].last_accessed == loaded[root].last_accessed
                &&& stored[root].data_version == loaded[root].data_version
            }
            &&& counts.len() == 0 || store::store_error(loaded, root, counts, outcome) is Some
                ==> stored == loaded
            &&& stored.contains_key(other) == loaded.contains_key(other)
            &&& loaded.contains_key(other) ==> stored[other] == loaded[other]
            &&& store::reconcile_error(loaded, root, stale_paths, outcome) is None ==> {
                &&& reconciled.contains_key(root)
                &&& forall|path: Seq<char>| #[trigger]
                    reconciled[root].kept.contains_key(path) <==> loaded[root].kept.contains_key(
                        path,
                    ) && !stale_paths.contains(path)
                &&& forall|path: Seq<char>| #[trigger]
                    reconciled[root].kept.contains_key(path) ==> reconciled[root].kept[path]
                        == loaded[root].kept[path]
                &&& reconciled[root].last_accessed == loaded[root].last_accessed
                &&& reconciled[root].data_version == loaded[root].data_version
            }
            &&& store::reconcile_error(loaded, root, stale_paths, outcome) is Some ==> reconciled
                == loaded
            &&& reconciled.contains_key(other) == loaded.contains_key(other)
            &&& loaded.contains_key(other) ==> reconciled[other] == loaded[other]
        }),
        forall|path: Seq<char>| #[trigger]
            store::stale(loaded[root].kept, valid).contains(path)
                <==> loaded[root].kept.contains_key(path) && !valid.contains(path),
{
}

/// A number is cut off only where the type cannot hold it.
pub proof fn law_clamped_numbers(n: int)
    ensures
        i64::MIN <= n <= i64::MAX ==> store::clamped(n) == n,
        n < i64::MIN ==> store::clamped(n) == i64::MIN,
        n > i64::MAX ==> store::clamped(n) == i64::MAX,
{
}

/// A timestamp is the number of seconds that the clock shows, and zero where it
/// shows none or one that the type cannot hold.
pub proof fn law_timestamps(seconds: u64)
    ensures
        seconds <= i64::MAX ==> clock::timestamp_of(Some(seconds)) == seconds,
        seconds > i64::MAX ==> clock::timestamp_of(Some(seconds)) == 0,
        clock::timestamp_of(None) == 0,
{
}

/// How a transaction goes, step by step: what fails decides how it ends. It is
/// begun, does its work, and is committed; one that fails at its work or at being
/// committed is rolled back and reports that failure, even where the rollback
/// fails too; a commit or rollback that cannot be prepared ends it there.
pub proof fn law_how_transactions_go(cause: RollbackCause, outcome: TransactionOutcome)
    ensures
        transaction::step_after_all(Seq::empty()) == TransactionStep::Begin,
        transaction::step_after(TransactionStep::Begin, StepResult::Succeeded)
            == TransactionStep::Operate,
        transaction::step_after(TransactionStep::Begin, StepResult::Failed)
            == TransactionStep::Finished(TransactionOutcome::NotBegun),
        transaction::step_after(TransactionStep::Begin, StepResult::NotPrepared)
            == TransactionStep::Finished(TransactionOutcome::NotBegun),
        transaction::step_after(TransactionStep::Operate, StepResult::Succeeded)
            == TransactionStep::Commit,
        transaction::step_after(TransactionStep::Operate, StepResult::Failed)
            == TransactionStep::Rollback(RollbackCause::Operation),
        transaction::step_after(TransactionStep::Operate, StepResult::NotPrepared)
            == TransactionStep::Rollback(RollbackCause::Operation),
        transaction::step_after(TransactionStep::Commit, StepResult::Succeeded)
            == TransactionStep::Finished(TransactionOutcome::Committed),
        transaction::step_after(TransactionStep::Commit, StepResult::Failed)
            == TransactionStep::Rollback(RollbackCause::Commit),
        transaction::step_after(TransactionStep::Commit, StepResult::NotPrepared)
            == TransactionStep::Finished(TransactionOutcome::CommitNotPrepared),
        transaction::step_after(
            TransactionStep::Rollback(RollbackCause::Operation),
            StepResult::Succeeded,
        ) == TransactionStep::Finished(TransactionOutcome::OperationFailed),
        transaction::step_after(
            TransactionStep::Rollback(RollbackCause::Operation),
            StepResult::Failed,
        ) == TransactionStep::Finished(TransactionOutcome::OperationFailed),
        transaction::step_after(
            TransactionStep::Rollback(RollbackCause::Commit),
            StepResult::Succeeded,
        ) == TransactionStep::Finished(TransactionOutcome::CommitFailed),
        transaction::step_after(
            TransactionStep::Rollback(RollbackCause::Commit),
            StepResult::Failed,
        ) == TransactionStep::Finished(TransactionOutcome::CommitFailed),
        transaction::step_after(TransactionStep::Rollback(cause), StepResult::NotPrepared)
            == TransactionStep::Finished(TransactionOutcome::RollbackNotPrepared),
        forall|result: StepResult|
            #[trigger] transaction::step_after(TransactionStep::Finished(outcome), result)
                == TransactionStep::Finished(outcome),
{
}

} // verus!
