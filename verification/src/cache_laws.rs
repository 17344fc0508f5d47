//! What holds of the cache whatever is done with it.

use crate::cache;
use crate::cache::Counts;
use crate::counts;
use crate::counts::{LineCountEntry, LineCountRequest, ProjectLineCount};
use crate::distinct;
use crate::filter::LineCountFilter;
use crate::ordered_map;
use crate::rel_path;
use crate::sum;
use crate::worktree::Entry;
use vstd::prelude::*;

verus! {

/// A reset to the same entries asks for nothing and changes nothing.
pub proof fn law_second_reset_asks_for_nothing(
    filter: LineCountFilter,
    known: Counts,
    entries: Seq<&Entry>,
)
    requires
        distinct::distinct_paths(entries),
    ensures
        cache::requests_on_reset(
            filter,
            cache::counts_on_reset(filter, known, entries),
            entries,
        ).len() == 0,
        cache::counts_on_reset(filter, cache::counts_on_reset(filter, known, entries), entries)
            == cache::counts_on_reset(filter, known, entries),
{
    let after = cache::counts_on_reset(filter, known, entries);
    let again = cache::counts_on_reset(filter, after, entries);
    distinct::law_reset_keeps_what_is_there(filter, known, entries);
    distinct::law_reset_keeps_what_is_there(filter, after, entries);
    distinct::lemma_requests_on_reset(filter, after, entries);
    let requests = cache::requests_on_reset(filter, after, entries);
    if requests.len() > 0 {
        assert(distinct::asks_for_one(filter, after, entries, requests[0], false));
        let i = choose|i: int|
            0 <= i < entries.len() && distinct::is_asked(
                filter,
                after,
                *#[trigger] entries[i],
                requests[0],
                false,
            );
        assert(after.contains_key(entries[i].path@));
        assert(false);
    }
    assert forall|path: Seq<char>| again.contains_key(path) == after.contains_key(path) && (
    after.contains_key(path) ==> again[path] == after[path]) by {
        if again.contains_key(path) || after.contains_key(path) {
            assert(distinct::has_path(entries, path));
            let i = choose|i: int| 0 <= i < entries.len() && (#[trigger] entries[i]).path@ == path;
            assert(after.contains_key(entries[i].path@) == (cache::entry_on_reset(
                filter,
                known,
                *entries[i],
            ) is Some));
            assert(again.contains_key(entries[i].path@) == (cache::entry_on_reset(
                filter,
                after,
                *entries[i],
            ) is Some));
        }
    }
    assert(again =~= after);
}

/// Changes that show what a reset has just shown ask for nothing, unless the
/// count could not be had before.
pub proof fn law_unchanged_entries_are_not_asked_for_again(
    filter: LineCountFilter,
    known: Counts,
    entries: Seq<&Entry>,
)
    requires
        distinct::distinct_paths(entries),
        forall|i: int|
            0 <= i < entries.len() && cache::is_counted(filter, *(#[trigger] entries[i]))
                && cache::is_current(known, *entries[i]) ==> cache::is_reusable(
                known,
                *entries[i],
            ),
    ensures
        cache::requests_on_change(
            filter,
            cache::counts_on_reset(filter, known, entries),
            entries,
        ).len() == 0,
{
    let after = cache::counts_on_reset(filter, known, entries);
    distinct::law_reset_keeps_what_is_there(filter, known, entries);
    distinct::lemma_requests_on_change(filter, after, entries);
    let requests = cache::requests_on_change(filter, after, entries);
    if requests.len() > 0 {
        assert(distinct::asks_for_one(filter, after, entries, requests[0], true));
        let i = choose|i: int|
            0 <= i < entries.len() && distinct::is_asked(
                filter,
                after,
                *#[trigger] entries[i],
                requests[0],
                true,
            );
        assert(after.contains_key(entries[i].path@));
        assert(false);
    }
}

/// Whatever a reset asks for, the cache waits for.
pub proof fn law_reset_waits_for_what_it_asks(
    filter: LineCountFilter,
    known: Counts,
    entries: Seq<&Entry>,
    k: int,
)
    requires
        distinct::distinct_paths(entries),
        0 <= k < cache::requests_on_reset(filter, known, entries).len(),
    ensures
        cache::is_awaited(
            cache::counts_on_reset(filter, known, entries),
            cache::requests_on_reset(filter, known, entries)[k].0,
            cache::requests_on_reset(filter, known, entries)[k].1,
        ),
{
    distinct::law_reset_keeps_what_is_there(filter, known, entries);
    distinct::lemma_requests_on_reset(filter, known, entries);
    let request = cache::requests_on_reset(filter, known, entries)[k];
    assert(distinct::asks_for_one(filter, known, entries, request, false));
    let i = choose|i: int|
        0 <= i < entries.len() && distinct::is_asked(
            filter,
            known,
            *#[trigger] entries[i],
            request,
            false,
        );
    assert(cache::counts_on_reset(filter, known, entries).contains_key(entries[i].path@));
}

/// Whatever changed entries ask for, the cache waits for.
pub proof fn law_change_waits_for_what_it_asks(
    filter: LineCountFilter,
    known: Counts,
    entries: Seq<&Entry>,
    k: int,
)
    requires
        distinct::distinct_paths(entries),
        0 <= k < cache::requests_on_change(filter, known, entries).len(),
    ensures
        cache::is_awaited(
            cache::counts_on_change(filter, known, entries),
            cache::requests_on_change(filter, known, entries)[k].0,
            cache::requests_on_change(filter, known, entries)[k].1,
        ),
{
    distinct::law_changes_touch_only_their_paths(filter, known, entries);
    distinct::lemma_requests_on_change(filter, known, entries);
    let request = cache::requests_on_change(filter, known, entries)[k];
    assert(distinct::asks_for_one(filter, known, entries, request, true));
    let i = choose|i: int|
        0 <= i < entries.len() && distinct::is_asked(
            filter,
            known,
            *#[trigger] entries[i],
            request,
            true,
        );
    assert(cache::counts_on_change(filter, known, entries).contains_key(entries[i].path@));
}

/// A file that has not changed keeps its count over a reset.
pub proof fn law_reset_keeps_counts_of_unchanged_files(
    filter: LineCountFilter,
    known: Counts,
    entries: Seq<&Entry>,
    i: int,
)
    requires
        distinct::distinct_paths(entries),
        0 <= i < entries.len(),
        cache::is_counted(filter, *entries[i]),
        cache::is_current(known, *entries[i]),
    ensures
        cache::counts_on_reset(filter, known, entries).contains_key(entries[i].path@),
        cache::counts_on_reset(filter, known, entries)[entries[i].path@].state
            == known[entries[i].path@].state,
{
    distinct::law_reset_keeps_what_is_there(filter, known, entries);
    assert(cache::counts_on_reset(filter, known, entries).contains_key(entries[i].path@));
}

/// An answer always ends the waiting, even where there is no count in it.
pub proof fn law_answers_end_the_waiting(
    fingerprint: counts::EntryFingerprint,
    result: Option<ProjectLineCount>,
)
    ensures
        !(counts::state_after(fingerprint, result) is Pending),
{
}

/// Once an entry has its answer, no other answer touches it.
pub proof fn law_only_the_first_answer_counts(
    known: Counts,
    results: Seq<(&LineCountRequest, Option<&ProjectLineCount>)>,
    i: int,
    fingerprint: counts::EntryFingerprint,
)
    requires
        0 <= i < results.len(),
        cache::is_awaited(known, results[i].0.path@, results[i].0.fingerprint),
    ensures
        !cache::is_awaited(
            cache::edited(known, cache::edits_on_results(known, results)),
            results[i].0.path@,
            fingerprint,
        ),
    decreases results.len(),
{
    let last = results.len() - 1;
    let front = results.drop_last();
    let edits = cache::edits_on_results(known, results);
    assert(results.last() == results[last]);
    if cache::is_awaited(known, results[last].0.path@, results[last].0.fingerprint) {
        assert(edits.drop_last() =~= cache::edits_on_results(known, front));
    }
    if i < last {
        assert(front[i] == results[i]);
        law_only_the_first_answer_counts(known, front, i, fingerprint);
    }
}

/// Results that nobody waits for change nothing: those of files that have
/// changed since, and those that come a second time.
pub proof fn law_stale_results_change_nothing(
    known: Counts,
    results: Seq<(&LineCountRequest, Option<&ProjectLineCount>)>,
)
    requires
        forall|i: int|
            0 <= i < results.len() ==> !cache::is_awaited(
                known,
                (#[trigger] results[i]).0.path@,
                results[i].0.fingerprint,
            ),
    ensures
        cache::edited(known, cache::edits_on_results(known, results)) == known,
    decreases results.len(),
{
    if results.len() > 0 {
        let front = results.drop_last();
        assert forall|i: int| 0 <= i < front.len() implies !cache::is_awaited(
            known,
            (#[trigger] front[i]).0.path@,
            front[i].0.fingerprint,
        ) by {
            assert(results[i] == front[i]);
        }
        law_stale_results_change_nothing(known, front);
        assert(!cache::is_awaited(
            known,
            results[results.len() - 1].0.path@,
            results[results.len() - 1].0.fingerprint,
        ));
    }
}

/// `path` is at or below the directory, and its entry is shown.
pub open spec fn counts_towards(
    known: Counts,
    path: Seq<char>,
    directory: Seq<char>,
    hide_ignored: bool,
    hide_hidden: bool,
) -> bool {
    &&& known.contains_key(path)
    &&& rel_path::lies_under(path, directory)
    &&& counts::is_shown(known[path], hide_ignored, hide_hidden)
}

/// A sum is zero exactly when every term is.
proof fn lemma_sum_zero<M, V>(m: Map<M, V>, weight: spec_fn(M, V) -> nat)
    requires
        m.dom().finite(),
    ensures
        sum::sum_over(m, weight) == 0 <==> forall|k: M| #[trigger]
            m.contains_key(k) ==> weight(k, m[k]) == 0,
    decreases m.dom().len(),
{
    if m.dom().len() > 0 {
        let first = m.dom().choose();
        assert(m.contains_key(first));
        let rest = m.remove(first);
        lemma_sum_zero(rest, weight);
        if sum::sum_over(m, weight) == 0 {
            assert forall|k: M| #[trigger] m.contains_key(k) implies weight(k, m[k]) == 0 by {
                if k != first {
                    assert(rest.contains_key(k));
                }
            }
        }
        if forall|k: M| #[trigger] m.contains_key(k) ==> weight(k, m[k]) == 0 {
            assert forall|k: M| #[trigger] rest.contains_key(k) implies weight(k, rest[k])
                == 0 by {
                assert(m.contains_key(k));
            }
        }
    } else {
        assert forall|k: M| !(#[trigger] m.contains_key(k)) by {
            if m.contains_key(k) {
                assert(m.dom().contains(k));
                assert(m.dom().len() > 0);
            }
        }
    }
}

/// The total of a directory is partial exactly while some entry at or below it
/// that is shown is without a count.
pub proof fn law_total_is_partial_while_counts_are_missing(
    known: Counts,
    directory: Seq<char>,
    hide_ignored: bool,
    hide_hidden: bool,
)
    requires
        known.dom().finite(),
        cache::directory_total(known, directory, hide_ignored, hide_hidden) is Some,
    ensures
        cache::directory_total(known, directory, hide_ignored, hide_hidden)->0.is_partial
            <==> exists|path: Seq<char>| #[trigger]
            counts_towards(known, path, directory, hide_ignored, hide_hidden)
                && counts::incompleteness_of(known[path]) == 1,
{
    let weight = cache::incomplete_under(directory, hide_ignored, hide_hidden);
    lemma_sum_zero(known, weight);
    if exists|path: Seq<char>| #[trigger]
        counts_towards(known, path, directory, hide_ignored, hide_hidden)
            && counts::incompleteness_of(known[path]) == 1 {
        let path = choose|path: Seq<char>| #[trigger]
            counts_towards(known, path, directory, hide_ignored, hide_hidden)
                && counts::incompleteness_of(known[path]) == 1;
        assert(known.contains_key(path));
        assert(weight(path, known[path]) == 1);
    } else {
        assert forall|path: Seq<char>| #[trigger] known.contains_key(path) implies weight(
            path,
            known[path],
        ) == 0 by {
            assert(!(counts_towards(known, path, directory, hide_ignored, hide_hidden)
                && counts::incompleteness_of(known[path]) == 1));
        }
    }
}

/// Files without a count do not hold up the total of a directory: it is shown as
/// soon as one line is counted.
pub proof fn law_missing_counts_do_not_block_totals(
    known: Counts,
    path: Seq<char>,
    directory: Seq<char>,
    hide_ignored: bool,
    hide_hidden: bool,
)
    requires
        known.dom().finite(),
        counts_towards(known, path, directory, hide_ignored, hide_hidden),
        counts::lines_of(known[path]) > 0,
    ensures
        cache::directory_total(known, directory, hide_ignored, hide_hidden) matches Some(total)
            && total.lines >= counts::lines_of(known[path]),
{
    let weight = cache::lines_under(directory, hide_ignored, hide_hidden);
    sum::lemma_sum_remove(known, path, weight);
    assert(weight(path, known[path]) == counts::lines_of(known[path]));
}

/// The total of a directory all of whose files are counted is not partial: it is
/// the sum of their lines, as far as the type can hold it.
pub proof fn law_total_of_counted_files_is_exact(
    known: Counts,
    directory: Seq<char>,
    hide_ignored: bool,
    hide_hidden: bool,
)
    requires
        known.dom().finite(),
        forall|path: Seq<char>| #[trigger]
            counts_towards(known, path, directory, hide_ignored, hide_hidden)
                ==> counts::incompleteness_of(known[path]) == 0,
    ensures
        cache::directory_total(known, directory, hide_ignored, hide_hidden) == Some(
            counts::LineCountTotal {
                lines: counts::capped(
                    sum::sum_over(
                        known,
                        cache::lines_under(directory, hide_ignored, hide_hidden),
                    ),
                    0,
                ).lines,
                is_partial: false,
            },
        ),
{
    let weight = cache::incomplete_under(directory, hide_ignored, hide_hidden);
    lemma_sum_zero(known, weight);
    assert forall|path: Seq<char>| #[trigger] known.contains_key(path) implies weight(
        path,
        known[path],
    ) == 0 by {
        assert(counts_towards(known, path, directory, hide_ignored, hide_hidden)
            ==> counts::incompleteness_of(known[path]) == 0);
    }
}

/// A weight that is nowhere larger gives a sum that is not larger.
proof fn lemma_sum_monotone<M, V>(
    m: Map<M, V>,
    small: spec_fn(M, V) -> nat,
    large: spec_fn(M, V) -> nat,
)
    requires
        m.dom().finite(),
        forall|k: M| #[trigger] m.contains_key(k) ==> small(k, m[k]) <= large(k, m[k]),
    ensures
        sum::sum_over(m, small) <= sum::sum_over(m, large),
    decreases m.dom().len(),
{
    if m.dom().len() > 0 {
        let first = m.dom().choose();
        assert(m.contains_key(first));
        let rest = m.remove(first);
        assert forall|k: M| #[trigger] rest.contains_key(k) implies small(k, rest[k]) <= large(
            k,
            rest[k],
        ) by {
            assert(m.contains_key(k));
        }
        lemma_sum_monotone(rest, small, large);
    }
}

/// Hiding more never makes a directory larger, and a directory below another is
/// never larger than it.
pub proof fn law_less_is_not_more(
    known: Counts,
    outer: Seq<char>,
    inner: Seq<char>,
    hide_ignored: bool,
    hide_hidden: bool,
    hide_ignored_too: bool,
    hide_hidden_too: bool,
)
    requires
        known.dom().finite(),
        rel_path::lies_under(inner, outer),
        hide_ignored ==> hide_ignored_too,
        hide_hidden ==> hide_hidden_too,
    ensures
        sum::sum_over(known, cache::lines_under(inner, hide_ignored_too, hide_hidden_too))
            <= sum::sum_over(known, cache::lines_under(outer, hide_ignored, hide_hidden)),
{
    let small = cache::lines_under(inner, hide_ignored_too, hide_hidden_too);
    let large = cache::lines_under(outer, hide_ignored, hide_hidden);
    assert forall|path: Seq<char>| #[trigger] known.contains_key(path) implies small(
        path,
        known[path],
    ) <= large(path, known[path]) by {
        if rel_path::lies_under(path, inner) {
            rel_path::lemma_under_transitive(path, inner, outer);
        }
    }
    lemma_sum_monotone(known, small, large);
}

/// Nothing is left of a directory that has been removed.
pub proof fn law_removed_directories_are_empty(
    known: Counts,
    directory: Seq<char>,
    hide_ignored: bool,
    hide_hidden: bool,
)
    requires
        known.dom().finite(),
    ensures
        cache::directory_total(
            ordered_map::restricted(
                known,
                |path: Seq<char>, entry: LineCountEntry| !rel_path::lies_under(path, directory),
            ),
            directory,
            hide_ignored,
            hide_hidden,
        ) == Some(counts::LineCountTotal { lines: 0, is_partial: false }),
{
    let left = ordered_map::restricted(
        known,
        |path: Seq<char>, entry: LineCountEntry| !rel_path::lies_under(path, directory),
    );
    assert(left.dom().subset_of(known.dom()));
    vstd::set_lib::lemma_set_subset_finite(known.dom(), left.dom());
    lemma_sum_zero(left, cache::lines_under(directory, hide_ignored, hide_hidden));
    lemma_sum_zero(left, cache::incomplete_under(directory, hide_ignored, hide_hidden));
}

/// The parts of a directory make up the whole: what lies under one of its
/// subdirectories and what does not.
pub proof fn law_subdirectory_is_part_of_the_whole(
    known: Counts,
    outer: Seq<char>,
    inner: Seq<char>,
    hide_ignored: bool,
    hide_hidden: bool,
)
    requires
        known.dom().finite(),
        rel_path::lies_under(inner, outer),
    ensures
        sum::sum_over(known, cache::lines_under(outer, hide_ignored, hide_hidden))
            == sum::sum_over(known, cache::lines_under(inner, hide_ignored, hide_hidden))
            + sum::sum_over(
            ordered_map::restricted(
                known,
                |path: Seq<char>, entry: LineCountEntry| !rel_path::lies_under(path, inner),
            ),
            cache::lines_under(outer, hide_ignored, hide_hidden),
        ),
{
    let whole = cache::lines_under(outer, hide_ignored, hide_hidden);
    let part = cache::lines_under(inner, hide_ignored, hide_hidden);
    let keep = |path: Seq<char>, entry: LineCountEntry| !rel_path::lies_under(path, inner);
    let rest = |path: Seq<char>, entry: LineCountEntry|
        if keep(path, entry) {
            whole(path, entry)
        } else {
            0
        };
    assert forall|path: Seq<char>| #[trigger] known.contains_key(path) implies whole(
        path,
        known[path],
    ) == part(path, known[path]) + rest(path, known[path]) by {
        if rel_path::lies_under(path, inner) {
            rel_path::lemma_under_transitive(path, inner, outer);
        }
    }
    sum::lemma_sum_of_sums(known, part, rest, whole);
    lemma_sum_restricted(known, keep, whole, rest);
}

/// Summing over what is kept is summing over all with nothing for the others.
proof fn lemma_sum_restricted<M, V>(
    m: Map<M, V>,
    keep: spec_fn(M, V) -> bool,
    weight: spec_fn(M, V) -> nat,
    cut: spec_fn(M, V) -> nat,
)
    requires
        m.dom().finite(),
        forall|k: M, v: V| #[trigger] cut(k, v) == (if keep(k, v) {
            weight(k, v)
        } else {
            0
        }),
    ensures
        sum::sum_over(ordered_map::restricted(m, keep), weight) == sum::sum_over(m, cut),
    decreases m.dom().len(),
{
    let left = ordered_map::restricted(m, keep);
    assert(left.dom().subset_of(m.dom()));
    vstd::set_lib::lemma_set_subset_finite(m.dom(), left.dom());
    if m.dom().len() > 0 {
        let first = m.dom().choose();
        assert(m.contains_key(first));
        lemma_sum_restricted(m.remove(first), keep, weight, cut);
        if keep(first, m[first]) {
            sum::lemma_sum_remove(left, first, weight);
            assert(left.remove(first) =~= ordered_map::restricted(m.remove(first), keep));
        } else {
            assert(left =~= ordered_map::restricted(m.remove(first), keep));
        }
    } else {
        assert(left.dom() =~= Set::<M>::empty()) by {
            assert forall|k: M| !left.dom().contains(k) by {
                if left.dom().contains(k) {
                    assert(m.dom().contains(k));
                }
            }
        }
    }
}

} // verus!
