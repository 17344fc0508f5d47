//! The cache follows its worktree: it holds what the worktree holds, whether it
//! is told of changes or of all entries at once.

use crate::cache;
use crate::cache::Counts;
use crate::counts;
use crate::filter::LineCountFilter;
use crate::progress;
use crate::progress::{Answers, Entries, Progress};
use crate::rel_path;
use crate::worktree;
use vstd::prelude::*;

verus! {

/// There is something to know of an entry.
pub open spec fn is_tracked(filter: LineCountFilter, entries: Entries, path: Seq<char>) -> bool {
    entries.contains_key(path) && (cache::is_counted(filter, entries[path])
        || cache::is_unscanned(entries[path]))
}

/// What is known at `path` is about the entry that is there.
pub open spec fn is_about(
    filter: LineCountFilter,
    known: Counts,
    entries: Entries,
    path: Seq<char>,
) -> bool {
    if cache::is_counted(filter, entries[path]) {
        &&& known[path].fingerprint == Some(counts::fingerprint_of(entries[path]))
        &&& known[path].is_ignored == entries[path].is_ignored
        &&& known[path].is_hidden == entries[path].is_hidden
        &&& known[path].state !is Unscanned
    } else {
        known[path] == counts::pending_directory_entry(entries[path])
    }
}

/// Just the tracked entries are known, each in the state that it shows.
pub open spec fn follows(filter: LineCountFilter, known: Counts, entries: Entries) -> bool {
    &&& forall|path: Seq<char>| #[trigger]
        known.contains_key(path) == is_tracked(filter, entries, path)
    &&& forall|path: Seq<char>| #[trigger]
        known.contains_key(path) ==> is_about(filter, known, entries, path)
}

/// Entries outside of `changed` are the same in both.
pub open spec fn differ_only_at(before: Entries, after: Entries, changed: Set<Seq<char>>) -> bool {
    forall|path: Seq<char>|
        #![trigger after.contains_key(path)]
        !changed.contains(path) ==> before.contains_key(path) == after.contains_key(path)
            && before[path] == after[path]
}

/// Nothing is left below a path that is gone.
pub open spec fn gone_with_all_below(after: Entries, changed: Set<Seq<char>>) -> bool {
    forall|path: Seq<char>, gone: Seq<char>|
        #![trigger progress::is_gone(after, changed, gone), after.contains_key(path)]
        progress::is_gone(after, changed, gone) && rel_path::lies_under(path, gone)
            ==> !after.contains_key(path)
}

/// Nothing known follows a worktree without entries.
pub proof fn law_new_cache_follows(filter: LineCountFilter)
    ensures
        follows(filter, Map::empty(), Map::empty()),
{
}

/// The entries of a snapshot bring the cache up to date with it.
pub proof fn law_resets_follow(
    filter: LineCountFilter,
    progress: Progress,
    id: usize,
    before: Entries,
    after: Entries,
)
    requires
        follows(filter, cache::counts_in(progress.known, id), before),
        worktree::at_their_paths(after),
    ensures
        follows(
            filter,
            cache::counts_in(progress::after_reset(filter, progress, id, after).known, id),
            after,
        ),
{
    let known = cache::counts_in(progress.known, id);
    let reset = progress::counts_of_all(filter, known, after);
    assert(cache::counts_in(progress::after_reset(filter, progress, id, after).known, id) == reset);
    assert forall|path: Seq<char>| #[trigger] reset.contains_key(path) == is_tracked(
        filter,
        after,
        path,
    ) by {}
    assert forall|path: Seq<char>| #[trigger] reset.contains_key(path) implies is_about(
        filter,
        reset,
        after,
        path,
    ) by {
        assert(after[path].path@ == path);
        if cache::is_counted(filter, after[path]) && cache::is_current(known, after[path]) {
            assert(known.contains_key(path));
            assert(is_about(filter, known, before, path));
        }
    }
}

/// Changes bring the cache up to date too, as long as none is missing; and a
/// snapshot supersedes them: the outcome is the same as that of taking in all
/// entries anew, except that a file without a count that shows up among the
/// changes is asked for once more.
pub proof fn law_snapshot_supersedes_changes(
    filter: LineCountFilter,
    progress: Progress,
    id: usize,
    before: Entries,
    after: Entries,
    changed: Set<Seq<char>>,
)
    requires
        follows(filter, cache::counts_in(progress.known, id), before),
        worktree::at_their_paths(after),
        differ_only_at(before, after, changed),
        gone_with_all_below(after, changed),
    ensures
        ({
            let known = cache::counts_in(progress.known, id);
            let told = cache::counts_in(
                progress::after_changes(filter, progress, id, after, changed).known,
                id,
            );
            let anew = cache::counts_in(
                progress::after_reset(filter, progress, id, after).known,
                id,
            );
            &&& follows(filter, told, after)
            &&& told.dom() == anew.dom()
            &&& forall|path: Seq<char>| #[trigger]
                told.contains_key(path) ==> told[path] == anew[path] || {
                    &&& changed.contains(path)
                    &&& anew[path].state is Unavailable
                    &&& told[path] == counts::pending_file_entry(after[path])
                }
        }),
{
    let known = cache::counts_in(progress.known, id);
    let left = progress::counts_without_gone(known, after, changed);
    let told = cache::counts_in(
        progress::after_changes(filter, progress, id, after, changed).known,
        id,
    );
    let anew = cache::counts_in(progress::after_reset(filter, progress, id, after).known, id);
    law_resets_follow(filter, progress, id, before, after);
    lemma_told(filter, progress, id, after, changed);
    assert(anew == progress::counts_of_all(filter, known, after));
    assert forall|path: Seq<char>|
        #![trigger told.contains_key(path)]
        told.contains_key(path) == anew.contains_key(path) && (told.contains_key(path)
            ==> told[path] == anew[path] || {
            &&& changed.contains(path)
            &&& anew[path].state is Unavailable
            &&& told[path] == counts::pending_file_entry(after[path])
        }) by {
        if progress::is_under_gone(after, changed, path) {
            let gone = choose|gone: Seq<char>| #[trigger]
                progress::is_gone(after, changed, gone) && rel_path::lies_under(path, gone);
            assert(!after.contains_key(path));
            assert(!left.contains_key(path));
        } else {
            assert(left.contains_key(path) == known.contains_key(path));
            if changed.contains(path) && !after.contains_key(path) {
                assert(path.take(path.len() as int) =~= path);
                assert(rel_path::lies_under(path, path));
                assert(progress::is_gone(after, changed, path));
            }
            if after.contains_key(path) {
                assert(after[path].path@ == path);
            }
            if known.contains_key(path) {
                assert(is_about(filter, known, before, path));
            }
        }
    }
    assert(told.dom() =~= anew.dom());
    assert forall|path: Seq<char>| #[trigger] told.contains_key(path) implies is_about(
        filter,
        told,
        after,
        path,
    ) by {
        assert(is_about(filter, anew, after, path));
    }
}

/// What changes make of what is known of their worktree.
proof fn lemma_told(
    filter: LineCountFilter,
    progress: Progress,
    id: usize,
    entries: Entries,
    changed: Set<Seq<char>>,
)
    ensures
        cache::counts_in(
            progress::after_changes(filter, progress, id, entries, changed).known,
            id,
        ) == progress::counts_with_present(
            filter,
            progress::counts_without_gone(
                cache::counts_in(progress.known, id),
                entries,
                changed,
            ),
            entries,
            changed,
        ),
{
    let left = progress::known_without_gone(progress.known, id, entries, changed);
    let counts = cache::counts_in(left, id);
    assert(counts =~= progress::counts_without_gone(
        cache::counts_in(progress.known, id),
        entries,
        changed,
    ));
    if !(exists|path: Seq<char>| #[trigger] progress::is_present(entries, changed, path)) {
        assert(progress::counts_with_present(filter, counts, entries, changed) =~= counts);
    }
}

/// Answers leave the cache up to date with the entries.
pub proof fn law_answers_keep_following(
    filter: LineCountFilter,
    known: Counts,
    entries: Entries,
    answers: Answers,
)
    requires
        follows(filter, known, entries),
    ensures
        follows(filter, progress::settled(known, answers), entries),
{
    let settled = progress::settled(known, answers);
    assert forall|path: Seq<char>| #[trigger] settled.contains_key(path) implies is_about(
        filter,
        settled,
        entries,
        path,
    ) by {
        assert(known.contains_key(path));
        assert(is_about(filter, known, entries, path));
    }
    assert forall|path: Seq<char>| #[trigger] settled.contains_key(path) == is_tracked(
        filter,
        entries,
        path,
    ) by {
        assert(known.contains_key(path) == is_tracked(filter, entries, path));
    }
}

} // verus!
