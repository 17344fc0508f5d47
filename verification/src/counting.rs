//! Counting the lines of candidates: what is kept need not be counted, and what
//! changes while it is being counted has no count.

use crate::candidate;
use crate::candidate::{FileFingerprint, LineCountCandidate, Metadata};
use crate::counts::{FileLineCount, ProjectLineCount, ProjectLineCountFingerprint};
use crate::ordered_map::OrderedMap;
use crate::rel_path::RelPath;
use crate::rows::Counted;
use vstd::prelude::*;

verus! {

/// A candidate that has been looked at: its count, if there is one, and the
/// state in which the file was found.
pub struct CountedCandidate {
    pub candidate: LineCountCandidate,
    pub count: Option<FileLineCount>,
    pub fingerprint: Option<FileFingerprint>,
}

/// A fingerprint, as results carry it.
pub open spec fn reported(fingerprint: Option<FileFingerprint>) -> Option<
    ProjectLineCountFingerprint,
> {
    match fingerprint {
        Some(fingerprint) => Some(candidate::project_fingerprint(fingerprint)),
        None => None,
    }
}

fn to_reported(fingerprint: Option<FileFingerprint>) -> (result: Option<
    ProjectLineCountFingerprint,
>)
    ensures
        result == reported(fingerprint),
{
    match fingerprint {
        Some(fingerprint) => Some(fingerprint.as_project_fingerprint()),
        None => None,
    }
}

/// The result for a candidate whose count is kept.
pub open spec fn kept_result(
    candidate: LineCountCandidate,
    count: FileLineCount,
) -> ProjectLineCount {
    ProjectLineCount {
        path: candidate.path,
        count: Some(count),
        fingerprint: reported(candidate.fingerprint),
    }
}

/// The results for candidates whose counts are kept, in order.
pub open spec fn kept_results(
    candidates: Seq<LineCountCandidate>,
    kept: Map<Seq<char>, FileLineCount>,
) -> Seq<ProjectLineCount>
    decreases candidates.len(),
{
    if candidates.len() == 0 {
        Seq::empty()
    } else {
        let front = kept_results(candidates.drop_last(), kept);
        let last = candidates.last();
        if kept.contains_key(last.path@) {
            front.push(kept_result(last, kept[last.path@]))
        } else {
            front
        }
    }
}

/// The counts to go by: those that were found in the store, or none where it
/// could not be asked.
pub open spec fn counts_to_use(found: Option<Map<Seq<char>, FileLineCount>>) -> Map<
    Seq<char>,
    FileLineCount,
> {
    match found {
        Some(counts) => counts,
        None => Map::empty(),
    }
}

/// The counts to go by: those that were found in the store, or none where it
/// could not be opened or its lookup has failed.
pub fn usable_counts(found: Option<OrderedMap<RelPath, FileLineCount>>) -> (counts: OrderedMap<
    RelPath,
    FileLineCount,
>)
    ensures
        counts@ == counts_to_use(
            match found {
                Some(counts) => Some(counts@),
                None => None,
            },
        ),
{
    match found {
        Some(counts) => counts,
        None => OrderedMap::new(),
    }
}

/// All results: those whose counts are kept, and then those of the candidates
/// that have been looked at.
pub open spec fn all_results(
    candidates: Seq<LineCountCandidate>,
    kept: Map<Seq<char>, FileLineCount>,
    counted: Seq<CountedCandidate>,
) -> Seq<ProjectLineCount> {
    kept_results(candidates, kept) + counted.map_values(
        |one: CountedCandidate| counted_result(one),
    )
}

/// The candidates whose counts are not kept, in order.
pub open spec fn misses_among(
    candidates: Seq<LineCountCandidate>,
    kept: Map<Seq<char>, FileLineCount>,
) -> Seq<LineCountCandidate> {
    candidates.filter(|candidate: LineCountCandidate| !kept.contains_key(candidate.path@))
}

/// Parts the candidates whose counts are kept from those that are still to be
/// counted.
pub fn split_candidates(
    candidates: Vec<LineCountCandidate>,
    kept: &OrderedMap<RelPath, FileLineCount>,
) -> (parts: (Vec<ProjectLineCount>, Vec<LineCountCandidate>))
    ensures
        parts.0@ == kept_results(candidates@, kept@),
        parts.1@ == misses_among(candidates@, kept@),
{
    let ghost all = candidates@;
    let ghost missing = |candidate: LineCountCandidate| !kept@.contains_key(candidate.path@);
    let mut results: Vec<ProjectLineCount> = Vec::new();
    let mut misses: Vec<LineCountCandidate> = Vec::new();
    proof {
        assert(all.take(0) =~= Seq::<LineCountCandidate>::empty());
        reveal(Seq::filter);
    }
    for candidate in it: candidates
        invariant
            it.seq() == all,
            missing == (|candidate: LineCountCandidate| !kept@.contains_key(candidate.path@)),
            results@ == kept_results(all.take(it.index() as int), kept@),
            misses@ == all.take(it.index() as int).filter(missing),
    {
        proof {
            let i = it.index() as int;
            assert(all.take(i + 1).drop_last() =~= all.take(i));
            assert(all.take(i + 1).last() == candidate);
            reveal(Seq::filter);
        }
        match kept.get(&candidate.path) {
            Some(count) => {
                results.push(
                    ProjectLineCount {
                        count: Some(*count),
                        fingerprint: to_reported(candidate.fingerprint),
                        path: candidate.path,
                    },
                );
            },
            None => {
                misses.push(candidate);
            },
        }
    }
    assert(all.take(all.len() as int) =~= all);
    (results, misses)
}

/// The fingerprint that the file system shows, if it shows any.
pub open spec fn fingerprint_found(metadata: Option<Metadata>) -> Option<FileFingerprint> {
    match metadata {
        Some(metadata) => candidate::fingerprint_in(metadata),
        None => None,
    }
}

fn find_fingerprint(metadata: Option<Metadata>) -> (fingerprint: Option<FileFingerprint>)
    ensures
        fingerprint == fingerprint_found(metadata),
{
    match metadata {
        Some(metadata) => FileFingerprint::from_metadata(metadata),
        None => None,
    }
}

/// Where the counting of a candidate stands.
#[derive(Clone, Copy, Debug, PartialEq, Eq, Structural)]
pub enum CountStep {
    /// The file is to be looked at.
    LookBefore,
    /// The lines are to be counted of the file in this state.
    Count(FileFingerprint),
    /// The file is to be looked at again. It was in this state before.
    LookAfter(FileFingerprint, Option<FileLineCount>),
    /// There is nothing more to do: the count, and the state of the file.
    Done(Option<FileLineCount>, Option<FileFingerprint>),
}

/// What a step has brought.
#[derive(Clone, Copy, Debug)]
pub enum CountEvent {
    /// What the file system shows of the file, if anything.
    Looked(Option<Metadata>),
    /// The lines, if they could be counted.
    Counted(Option<FileLineCount>),
}

/// The file is no longer in the state in which the candidate was seen.
pub open spec fn has_changed(
    seen: Option<FileFingerprint>,
    found: FileFingerprint,
) -> bool {
    seen matches Some(fingerprint) && fingerprint != found
}

/// The next step. An event that does not belong to a step leaves it as it is.
pub open spec fn next_step(
    seen: Option<FileFingerprint>,
    step: CountStep,
    event: CountEvent,
) -> CountStep {
    match (step, event) {
        (CountStep::LookBefore, CountEvent::Looked(metadata)) => match fingerprint_found(metadata) {
            None => CountStep::Done(None, None),
            Some(before) => if has_changed(seen, before) {
                CountStep::Done(None, Some(before))
            } else {
                CountStep::Count(before)
            },
        },
        (CountStep::Count(before), CountEvent::Counted(count)) => CountStep::LookAfter(
            before,
            count,
        ),
        (CountStep::LookAfter(before, count), CountEvent::Looked(metadata)) => {
            let after = fingerprint_found(metadata);
            if after == Some(before) {
                CountStep::Done(count, Some(before))
            } else {
                CountStep::Done(None, after)
            }
        },
        _ => step,
    }
}

/// What comes after `step` in counting a candidate.
pub fn advance(
    candidate: &LineCountCandidate,
    step: CountStep,
    event: CountEvent,
) -> (next: CountStep)
    ensures
        next == next_step(candidate.fingerprint, step, event),
{
    match (step, event) {
        (CountStep::LookBefore, CountEvent::Looked(metadata)) => match find_fingerprint(metadata) {
            None => CountStep::Done(None, None),
            Some(before) => match candidate.fingerprint {
                Some(fingerprint) if fingerprint != before => CountStep::Done(None, Some(before)),
                _ => CountStep::Count(before),
            },
        },
        (CountStep::Count(before), CountEvent::Counted(count)) => CountStep::LookAfter(
            before,
            count,
        ),
        (CountStep::LookAfter(before, count), CountEvent::Looked(metadata)) => match find_fingerprint(
            metadata,
        ) {
            Some(after) if after == before => CountStep::Done(count, Some(before)),
            after => CountStep::Done(None, after),
        },
        (step, _) => step,
    }
}

/// The counts that are worth keeping: those of candidates that were seen in a
/// state that can be persisted.
pub open spec fn cacheable_among(counted: Seq<CountedCandidate>) -> Seq<Counted>
    decreases counted.len(),
{
    if counted.len() == 0 {
        Seq::empty()
    } else {
        let front = cacheable_among(counted.drop_last());
        let last = counted.last();
        match (last.count, last.fingerprint, last.candidate.fingerprint) {
            (Some(count), Some(fingerprint), Some(_)) => front.push(
                (
                    LineCountCandidate { fingerprint: Some(fingerprint), ..last.candidate },
                    count,
                ),
            ),
            _ => front,
        }
    }
}

/// The counts that are worth keeping, with the states they belong to.
pub fn cacheable(counted: &[CountedCandidate]) -> (kept: Vec<Counted>)
    ensures
        kept@ == cacheable_among(counted@),
{
    let mut kept: Vec<Counted> = Vec::new();
    assert(counted@.take(0) =~= Seq::<CountedCandidate>::empty());
    for i in 0..counted.len()
        invariant
            kept@ == cacheable_among(counted@.take(i as int)),
    {
        proof {
            assert(counted@.take(i + 1).drop_last() =~= counted@.take(i as int));
            assert(counted@.take(i + 1).last() == counted@[i as int]);
        }
        let one = &counted[i];
        match (one.count, one.fingerprint, one.candidate.fingerprint) {
            (Some(count), Some(fingerprint), Some(_)) => {
                let mut candidate = one.candidate.clone();
                candidate.fingerprint = Some(fingerprint);
                kept.push((candidate, count));
            },
            _ => {},
        }
    }
    assert(counted@.take(counted@.len() as int) =~= counted@);
    kept
}

/// The result for a candidate that has been looked at.
pub open spec fn counted_result(counted: CountedCandidate) -> ProjectLineCount {
    ProjectLineCount {
        path: counted.candidate.path,
        count: counted.count,
        fingerprint: reported(counted.fingerprint),
    }
}

/// Adds the results for candidates that have been looked at.
pub fn add_results(results: &mut Vec<ProjectLineCount>, counted: Vec<CountedCandidate>)
    ensures
        final(results)@ == old(results)@ + counted@.map_values(
            |one: CountedCandidate| counted_result(one),
        ),
{
    let ghost all = counted@;
    let ghost report = |one: CountedCandidate| counted_result(one);
    let ghost before = results@;
    assert(results@ =~= before + all.take(0).map_values(report));
    for one in it: counted
        invariant
            it.seq() == all,
            report == (|one: CountedCandidate| counted_result(one)),
            results@ == before + all.take(it.index() as int).map_values(report),
    {
        let ghost i = it.index() as int;
        results.push(
            ProjectLineCount {
                path: one.candidate.path,
                count: one.count,
                fingerprint: to_reported(one.fingerprint),
            },
        );
        proof {
            assert(all.take(i + 1).map_values(report) =~= all.take(i).map_values(report).push(
                counted_result(one),
            ));
            assert(results@ =~= before + all.take(i + 1).map_values(report));
        }
    }
    assert(all.take(all.len() as int) =~= all);
}

/// The steps of counting a candidate, from looking at the file to the end.
pub open spec fn run(
    seen: Option<FileFingerprint>,
    before: Option<Metadata>,
    count: Option<FileLineCount>,
    after: Option<Metadata>,
) -> CountStep {
    next_step(
        seen,
        next_step(
            seen,
            next_step(seen, CountStep::LookBefore, CountEvent::Looked(before)),
            CountEvent::Counted(count),
        ),
        CountEvent::Looked(after),
    )
}

/// However the file system behaves, a candidate is done with after it has been
/// looked at, counted, and looked at again.
pub proof fn law_counting_ends(
    seen: Option<FileFingerprint>,
    before: Option<Metadata>,
    count: Option<FileLineCount>,
    after: Option<Metadata>,
)
    ensures
        run(seen, before, count, after) is Done,
{
}

/// A count is only reported for a file that was in the same state before and
/// after it was counted, and in the state in which the candidate was seen; that
/// state is reported with it.
pub proof fn law_reported_counts_are_of_unchanged_files(
    seen: Option<FileFingerprint>,
    before: Option<Metadata>,
    count: Option<FileLineCount>,
    after: Option<Metadata>,
)
    ensures
        run(seen, before, count, after) matches CountStep::Done(Some(lines), fingerprint) ==> {
            &&& count == Some(lines)
            &&& fingerprint is Some
            &&& fingerprint == fingerprint_found(before)
            &&& fingerprint == fingerprint_found(after)
            &&& seen is Some ==> seen == fingerprint
        },
        fingerprint_found(before) is Some && fingerprint_found(after) == fingerprint_found(before)
            && (seen is Some ==> seen == fingerprint_found(before)) ==> run(
            seen,
            before,
            count,
            after,
        ) == CountStep::Done(count, fingerprint_found(before)),
{
}

/// Every candidate gets a result, and no other path does: those whose counts
/// are kept and those that are counted make up all of them.
pub proof fn law_every_candidate_gets_a_result(
    candidates: Seq<LineCountCandidate>,
    kept: Map<Seq<char>, FileLineCount>,
)
    ensures
        kept_results(candidates, kept).len() + misses_among(candidates, kept).len()
            == candidates.len(),
        forall|i: int|
            0 <= i < candidates.len() ==> (if kept.contains_key((#[trigger] candidates[i]).path@) {
                kept_results(candidates, kept).contains(
                    kept_result(candidates[i], kept[candidates[i].path@]),
                )
            } else {
                misses_among(candidates, kept).contains(candidates[i])
            }),
    decreases candidates.len(),
{
    reveal(Seq::filter);
    if candidates.len() > 0 {
        let front = candidates.drop_last();
        let last = candidates.len() - 1;
        law_every_candidate_gets_a_result(front, kept);
        let results = kept_results(candidates, kept);
        let misses = misses_among(candidates, kept);
        assert forall|i: int| 0 <= i < candidates.len() implies (if kept.contains_key(
            (#[trigger] candidates[i]).path@,
        ) {
            results.contains(kept_result(candidates[i], kept[candidates[i].path@]))
        } else {
            misses.contains(candidates[i])
        }) by {
            let hit = kept.contains_key(candidates[i].path@);
            let result = kept_result(candidates[i], kept[candidates[i].path@]);
            if i < last {
                assert(front[i] == candidates[i]);
                if hit {
                    let before = kept_results(front, kept);
                    let k = choose|k: int| 0 <= k < before.len() && before[k] == result;
                    assert(results[k] == result);
                } else {
                    let before = misses_among(front, kept);
                    let k = choose|k: int| 0 <= k < before.len() && before[k] == candidates[i];
                    assert(misses[k] == candidates[i]);
                }
            } else if hit {
                assert(results[results.len() - 1] == result);
            } else {
                assert(misses[misses.len() - 1] == candidates[i]);
            }
        }
    }
}

} // verus!
