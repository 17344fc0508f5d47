use line_counts::counting::{
    add_results, advance, cacheable, split_candidates, usable_counts, CountEvent, CountStep,
    CountedCandidate,
};
use line_counts::transaction::{
    next_transaction_step, RollbackCause, StepResult, TransactionOutcome, TransactionStep,
};
use line_counts::{
    Entry, EntryKind, FileFingerprint, FileLineCount, LineCountCandidate, LineCountStore, MTime,
    Metadata, OrderedMap, PathStyle, RelPath, Snapshot, WorktreeId, WorktreeRoot,
};

fn path(text: &str) -> RelPath {
    RelPath::from_unix_str(text).expect("a path in normal form")
}

fn fingerprint(size: u64) -> FileFingerprint {
    FileFingerprint {
        mtime: MTime::from_seconds_and_nanos(10, 20),
        size,
        inode: 3,
    }
}

fn metadata(size: u64) -> Metadata {
    Metadata {
        inode: 3,
        mtime: MTime::from_seconds_and_nanos(10, 20),
        len: size,
        is_dir: false,
        is_fifo: false,
    }
}

fn candidate(text: &str, fingerprint: Option<FileFingerprint>) -> LineCountCandidate {
    LineCountCandidate {
        path: path(text),
        abs_path: format!("/w/{text}"),
        fingerprint,
    }
}

/// Runs the steps with what the file system shows before and after.
fn count(
    candidate: &LineCountCandidate,
    before: Option<Metadata>,
    lines: Option<FileLineCount>,
    after: Option<Metadata>,
) -> CountStep {
    let mut step = CountStep::LookBefore;
    for event in [
        CountEvent::Looked(before),
        CountEvent::Counted(lines),
        CountEvent::Looked(after),
    ] {
        step = advance(candidate, step, event);
    }
    step
}

#[test]
fn fingerprints_are_those_of_regular_files_after_the_epoch() {
    assert_eq!(
        FileFingerprint::from_metadata(metadata(5)),
        Some(fingerprint(5))
    );
    assert_eq!(
        FileFingerprint::from_metadata(Metadata {
            is_dir: true,
            ..metadata(5)
        }),
        None
    );
    assert_eq!(
        FileFingerprint::from_metadata(Metadata {
            is_fifo: true,
            ..metadata(5)
        }),
        None
    );
    assert_eq!(
        FileFingerprint::from_metadata(Metadata {
            mtime: MTime::new(-1, 0).expect("a valid time"),
            ..metadata(5)
        }),
        None
    );
    let shown = fingerprint(5).as_project_fingerprint();
    assert_eq!((shown.size, shown.inode), (5, 3));
    assert_eq!(shown.mtime, MTime::from_seconds_and_nanos(10, 20));
}

#[test]
fn unchanged_files_get_their_count() {
    let lines = Some(FileLineCount::Text(8));
    let seen = candidate("a.rs", Some(fingerprint(5)));
    assert_eq!(
        count(&seen, Some(metadata(5)), lines, Some(metadata(5))),
        CountStep::Done(lines, Some(fingerprint(5)))
    );
    let unseen = candidate("a.rs", None);
    assert_eq!(
        count(&unseen, Some(metadata(6)), lines, Some(metadata(6))),
        CountStep::Done(lines, Some(fingerprint(6)))
    );
    assert_eq!(
        count(&seen, Some(metadata(5)), None, Some(metadata(5))),
        CountStep::Done(None, Some(fingerprint(5)))
    );
}

#[test]
fn changed_files_get_no_count() {
    let lines = Some(FileLineCount::Text(8));
    let seen = candidate("a.rs", Some(fingerprint(5)));
    // Gone before it could be looked at.
    assert_eq!(
        count(&seen, None, lines, Some(metadata(5))),
        CountStep::Done(None, None)
    );
    // Changed before it was looked at: there is nothing more to do.
    assert_eq!(
        advance(
            &seen,
            CountStep::LookBefore,
            CountEvent::Looked(Some(metadata(6)))
        ),
        CountStep::Done(None, Some(fingerprint(6)))
    );
    // Changed, or gone, while it was counted.
    assert_eq!(
        count(&seen, Some(metadata(5)), lines, Some(metadata(6))),
        CountStep::Done(None, Some(fingerprint(6)))
    );
    assert_eq!(
        count(&seen, Some(metadata(5)), lines, None),
        CountStep::Done(None, None)
    );
}

#[test]
fn events_out_of_turn_are_ignored() {
    let seen = candidate("a.rs", None);
    let done = CountStep::Done(None, None);
    assert_eq!(
        advance(&seen, CountStep::LookBefore, CountEvent::Counted(None)),
        CountStep::LookBefore
    );
    assert_eq!(
        advance(
            &seen,
            CountStep::Count(fingerprint(1)),
            CountEvent::Looked(None)
        ),
        CountStep::Count(fingerprint(1))
    );
    assert_eq!(advance(&seen, done, CountEvent::Looked(None)), done);
}

#[test]
fn kept_counts_are_not_made_again() {
    let mut kept = OrderedMap::new();
    kept.insert(path("b.rs"), FileLineCount::Text(4));
    let candidates = vec![
        candidate("a.rs", Some(fingerprint(1))),
        candidate("b.rs", Some(fingerprint(2))),
        candidate("c.rs", None),
    ];
    let (mut results, misses) = split_candidates(candidates, &kept);
    assert_eq!(results.len(), 1);
    assert_eq!(results[0].path.as_unix_str(), "b.rs");
    assert_eq!(results[0].count, Some(FileLineCount::Text(4)));
    assert_eq!(
        results[0].fingerprint,
        Some(fingerprint(2).as_project_fingerprint())
    );
    let names = misses
        .iter()
        .map(|miss| miss.path.as_unix_str())
        .collect::<Vec<_>>();
    assert_eq!(names, ["a.rs", "c.rs"]);

    let counted = misses
        .into_iter()
        .map(|candidate| CountedCandidate {
            candidate,
            count: Some(FileLineCount::Binary),
            fingerprint: Some(fingerprint(9)),
        })
        .collect::<Vec<_>>();
    add_results(&mut results, counted);
    assert_eq!(results.len(), 3);
    assert_eq!(results[1].path.as_unix_str(), "a.rs");
    assert_eq!(results[2].path.as_unix_str(), "c.rs");
    assert_eq!(results[2].count, Some(FileLineCount::Binary));
    assert_eq!(
        results[2].fingerprint,
        Some(fingerprint(9).as_project_fingerprint())
    );
}

#[test]
fn counted_files_are_found_again() {
    let seen = candidate("a.rs", Some(fingerprint(1)));
    let counted = [
        CountedCandidate {
            candidate: seen.clone(),
            count: Some(FileLineCount::Text(7)),
            fingerprint: Some(fingerprint(1)),
        },
        // Not seen by the worktree, not counted, and gone: none of them is kept.
        CountedCandidate {
            candidate: candidate("b.rs", None),
            count: Some(FileLineCount::Text(8)),
            fingerprint: Some(fingerprint(2)),
        },
        CountedCandidate {
            candidate: candidate("c.rs", Some(fingerprint(3))),
            count: None,
            fingerprint: Some(fingerprint(3)),
        },
        CountedCandidate {
            candidate: candidate("d.rs", Some(fingerprint(4))),
            count: Some(FileLineCount::Binary),
            fingerprint: None,
        },
    ];
    let kept = cacheable(&counted);
    assert_eq!(kept.len(), 1);
    assert_eq!(kept[0].0.path.as_unix_str(), "a.rs");
    assert_eq!(kept[0].0.abs_path, "/w/a.rs");
    assert_eq!(kept[0].1, FileLineCount::Text(7));

    let root = WorktreeRoot::from_bytes(b"/w".to_vec());
    let mut store = LineCountStore::new();
    assert_eq!(store.load_worktree(&root, 1, 1, &Vec::new()), Ok(()));
    assert_eq!(
        store.store(&root, &kept, TransactionOutcome::Committed),
        Ok(())
    );
    let found = store
        .lookup(&root, std::slice::from_ref(&seen))
        .expect("a loaded worktree");
    let (results, misses) = split_candidates(vec![seen], &found);
    assert_eq!(results.len(), 1);
    assert_eq!(results[0].count, Some(FileLineCount::Text(7)));
    assert!(misses.is_empty());
}

#[test]
fn candidates_are_regular_files_of_the_snapshot() {
    let mut snapshot = Snapshot::new(
        WorktreeId::from_usize(1),
        path("root"),
        String::from("/root"),
        PathStyle::Unix,
    );
    let file = Entry {
        kind: EntryKind::File,
        path: path("src/a.rs"),
        inode: 3,
        mtime: Some(MTime::from_seconds_and_nanos(10, 20)),
        size: 5,
        is_ignored: false,
        is_hidden: false,
        is_fifo: false,
    };
    snapshot.insert_entry(file.clone());
    snapshot.insert_entry(Entry {
        path: path("src"),
        kind: EntryKind::Dir,
        ..file.clone()
    });
    snapshot.insert_entry(Entry {
        path: path("pipe"),
        is_fifo: true,
        ..file.clone()
    });
    snapshot.insert_entry(Entry {
        path: path("old.rs"),
        mtime: MTime::new(-1, 0),
        ..file.clone()
    });
    snapshot.insert_entry(Entry {
        path: path("unknown.rs"),
        mtime: None,
        ..file.clone()
    });
    let found = LineCountCandidate::from_snapshot(&snapshot, path("src/a.rs"))
        .expect("a regular file");
    assert_eq!(found.path.as_unix_str(), "src/a.rs");
    assert_eq!(found.abs_path, "/root/src/a.rs");
    assert_eq!(found.fingerprint, Some(fingerprint(5)));
    for name in ["src", "pipe", "missing.rs"] {
        assert!(LineCountCandidate::from_snapshot(&snapshot, path(name)).is_none());
    }
    for name in ["old.rs", "unknown.rs"] {
        let found =
            LineCountCandidate::from_snapshot(&snapshot, path(name)).expect("a regular file");
        assert_eq!(found.fingerprint, None);
    }
}

#[test]
fn paths_are_written_as_on_the_worktrees_host() {
    let windows = Snapshot::new(
        WorktreeId::from_usize(1),
        path("root"),
        String::from("C:\\root"),
        PathStyle::Windows,
    );
    assert_eq!(windows.absolutize(&path("src/a.rs")), "C:\\root\\src\\a.rs");
    assert_eq!(windows.absolutize(&path("")), "C:\\root");
    let top = Snapshot::new(
        WorktreeId::from_usize(1),
        path(""),
        String::from("/"),
        PathStyle::Unix,
    );
    assert_eq!(top.absolutize(&path("a/b")), "/a/b");
}

#[test]
fn transactions_are_committed_when_all_goes_well() {
    let mut step = TransactionStep::Begin;
    for expected in [
        TransactionStep::Operate,
        TransactionStep::Commit,
        TransactionStep::Finished(TransactionOutcome::Committed),
        TransactionStep::Finished(TransactionOutcome::Committed),
    ] {
        step = next_transaction_step(step, StepResult::Succeeded);
        assert_eq!(step, expected);
    }
}

#[test]
fn failed_transactions_are_rolled_back() {
    for failure in [StepResult::Failed, StepResult::NotPrepared] {
        assert_eq!(
            next_transaction_step(TransactionStep::Begin, failure),
            TransactionStep::Finished(TransactionOutcome::NotBegun)
        );
        assert_eq!(
            next_transaction_step(TransactionStep::Operate, failure),
            TransactionStep::Rollback(RollbackCause::Operation)
        );
    }
    assert_eq!(
        next_transaction_step(TransactionStep::Commit, StepResult::Failed),
        TransactionStep::Rollback(RollbackCause::Commit)
    );
    assert_eq!(
        next_transaction_step(TransactionStep::Commit, StepResult::NotPrepared),
        TransactionStep::Finished(TransactionOutcome::CommitNotPrepared)
    );
    for (cause, outcome) in [
        (RollbackCause::Operation, TransactionOutcome::OperationFailed),
        (RollbackCause::Commit, TransactionOutcome::CommitFailed),
    ] {
        // What made the rollback necessary is reported even where it fails too.
        for result in [StepResult::Succeeded, StepResult::Failed] {
            assert_eq!(
                next_transaction_step(TransactionStep::Rollback(cause), result),
                TransactionStep::Finished(outcome)
            );
        }
        assert_eq!(
            next_transaction_step(TransactionStep::Rollback(cause), StepResult::NotPrepared),
            TransactionStep::Finished(TransactionOutcome::RollbackNotPrepared)
        );
    }
}

#[test]
fn a_failing_store_answers_like_an_empty_one() {
    let candidates = vec![
        candidate("a.rs", Some(fingerprint(1))),
        candidate("b.rs", None),
    ];
    let root = WorktreeRoot::from_bytes(b"/w".to_vec());
    let mut empty = LineCountStore::new();
    assert_eq!(empty.load_worktree(&root, 1, 1, &Vec::new()), Ok(()));
    let found = empty
        .lookup(&root, &candidates)
        .expect("a loaded worktree");
    for found in [None, Some(found)] {
        let counts = usable_counts(found);
        assert_eq!(counts.len(), 0);
        let (mut results, misses) = split_candidates(candidates.clone(), &counts);
        assert!(results.is_empty());
        assert_eq!(misses.len(), 2);
        let counted = misses
            .into_iter()
            .map(|candidate| CountedCandidate {
                candidate,
                count: Some(FileLineCount::Text(3)),
                fingerprint: Some(fingerprint(1)),
            })
            .collect::<Vec<_>>();
        add_results(&mut results, counted);
        let names = results
            .iter()
            .map(|result| result.path.as_unix_str())
            .collect::<Vec<_>>();
        assert_eq!(names, ["a.rs", "b.rs"]);
        assert!(results
            .iter()
            .all(|result| result.count == Some(FileLineCount::Text(3))));
    }
    let mut kept = OrderedMap::new();
    kept.insert(path("a.rs"), FileLineCount::Text(4));
    assert_eq!(
        usable_counts(Some(kept)).get(&path("a.rs")),
        Some(&FileLineCount::Text(4))
    );
}
