use line_counts::queue::{MAX_ACTIVE_BATCHES, MAX_BATCH_REQUESTS};
use line_counts::update::MAX_CHANGED_ENTRIES;
use line_counts::{
    Entry, EntryKind, FileLineCount, LineCountBatch, LineCountFilter, LineCountTotal,
    LineCountUpdate, LineCountWorker, MTime, OrderedMap, PathStyle, ProjectLineCount,
    ProjectLineCountFingerprint, RelPath, Snapshot, WorktreeId,
};

fn path(text: &str) -> RelPath {
    RelPath::from_unix_str(text).expect("a path in normal form")
}

fn file(text: &str, size: u64) -> Entry {
    Entry {
        kind: EntryKind::File,
        path: path(text),
        inode: 1,
        mtime: Some(MTime::from_seconds_and_nanos(1, 0)),
        size,
        is_ignored: false,
        is_hidden: false,
        is_fifo: false,
    }
}

fn root() -> Entry {
    Entry {
        kind: EntryKind::Dir,
        ..file("", 0)
    }
}

fn snapshot(worktree_id: WorktreeId, entries: &[Entry]) -> Snapshot {
    let mut snapshot = Snapshot::new(
        worktree_id,
        path("root"),
        String::from("/root"),
        PathStyle::Unix,
    );
    for entry in entries {
        snapshot.insert_entry(entry.clone());
    }
    snapshot
}

fn update(
    worker: &mut LineCountWorker,
    updates: Vec<(WorktreeId, Option<LineCountUpdate>)>,
) -> Vec<usize> {
    let mut by_worktree = OrderedMap::new();
    for (worktree_id, update) in updates {
        by_worktree.insert(worktree_id, update);
    }
    worker.update(by_worktree)
}

fn result(entry: &Entry, lines: u64) -> ProjectLineCount {
    ProjectLineCount {
        path: entry.path.clone(),
        count: Some(FileLineCount::Text(lines)),
        fingerprint: Some(ProjectLineCountFingerprint {
            mtime: entry.mtime.expect("a time of modification"),
            size: entry.size,
            inode: entry.inode,
        }),
    }
}

fn names(batch: &LineCountBatch) -> Vec<&str> {
    let mut names = batch
        .paths
        .iter()
        .map(|path| path.as_unix_str())
        .collect::<Vec<_>>();
    names.sort();
    names
}

fn total(lines: u64, is_partial: bool) -> Option<LineCountTotal> {
    Some(LineCountTotal { lines, is_partial })
}

#[test]
fn a_worktree_is_counted_and_then_followed() {
    let id = WorktreeId::from_usize(1);
    let mut worker = LineCountWorker::new(LineCountFilter::default());
    let a = file("a.rs", 10);
    let b = file("dir/b.rs", 20);
    let c = file("dir/c.rs", 30);
    let all = [a.clone(), b.clone(), c.clone()];
    assert!(update(
        &mut worker,
        vec![(id, Some(LineCountUpdate::new(snapshot(id, &all))))]
    )
    .is_empty());
    let batches = worker.batches();
    assert_eq!(batches.len(), 1);
    assert_eq!(batches[0].worktree_id.to_usize(), 1);
    assert_eq!(names(&batches[0]), ["a.rs", "dir/b.rs", "dir/c.rs"]);

    // Results come piece by piece, and a batch keeps its slot in the meantime.
    worker.complete(batches[0].id, Some(vec![result(&a, 1), result(&b, 2)]));
    assert_eq!(
        worker.cache.line_count(id, &root(), false, false),
        total(3, true)
    );
    assert!(worker.active.get(batches[0].id).is_some());
    worker.complete(batches[0].id, Some(vec![result(&c, 4)]));
    worker.complete(batches[0].id, None);
    assert!(worker.active.get(batches[0].id).is_none());
    assert_eq!(
        worker.cache.line_count(id, &root(), false, false),
        total(7, false)
    );
    // Results for a batch that has come to its end change nothing.
    worker.complete(batches[0].id, Some(vec![result(&c, 400)]));
    assert_eq!(
        worker.cache.line_count(id, &root(), false, false),
        total(7, false)
    );

    // One file changes, and a directory goes with all below it.
    let a2 = file("a.rs", 11);
    let changes = vec![path("a.rs"), path("dir")];
    let now = LineCountUpdate::incremental(snapshot(id, &[a2.clone()]), &changes);
    assert!(update(&mut worker, vec![(id, Some(now))]).is_empty());
    assert_eq!(worker.cache.line_count(id, &root(), false, false), None);
    let batches = worker.batches();
    assert_eq!(batches.len(), 1);
    assert_eq!(names(&batches[0]), ["a.rs"]);
    worker.complete(batches[0].id, Some(vec![result(&a2, 9)]));
    assert_eq!(
        worker.cache.line_count(id, &root(), false, false),
        total(9, false)
    );
}

#[test]
fn the_snapshot_supersedes_the_changes() {
    let id = WorktreeId::from_usize(1);
    let before = [file("a.rs", 1), file("dir/b.rs", 2), file("dir/c.rs", 3)];
    let after = [file("a.rs", 5), file("d.rs", 6)];
    let changes = vec![path("a.rs"), path("d.rs"), path("dir")];
    let counted = |update_to: LineCountUpdate| {
        let mut worker = LineCountWorker::new(LineCountFilter::default());
        update(
            &mut worker,
            vec![(id, Some(LineCountUpdate::new(snapshot(id, &before))))],
        );
        let batches = worker.batches();
        let results = before.iter().map(|entry| result(entry, 1)).collect();
        worker.complete(batches[0].id, Some(results));
        worker.complete(batches[0].id, None);
        update(&mut worker, vec![(id, Some(update_to))]);
        let batches = worker.batches();
        assert_eq!(batches.len(), 1);
        assert_eq!(names(&batches[0]), ["a.rs", "d.rs"]);
        let results = after.iter().map(|entry| result(entry, 10)).collect();
        worker.complete(batches[0].id, Some(results));
        worker.cache.line_count(id, &root(), false, false)
    };
    assert_eq!(
        counted(LineCountUpdate::incremental(snapshot(id, &after), &changes)),
        total(20, false)
    );
    assert_eq!(
        counted(LineCountUpdate::new(snapshot(id, &after))),
        total(20, false)
    );
}

#[test]
fn too_many_changes_are_not_kept_one_by_one() {
    let id = WorktreeId::from_usize(1);
    let some = vec![path("a.rs"), path("b.rs")];
    let mut update = LineCountUpdate::incremental(snapshot(id, &[]), &some);
    assert_eq!(update.paths().expect("changes").len(), 2);
    update.merge(snapshot(id, &[]), &vec![path("b.rs"), path("c.rs")]);
    assert_eq!(update.paths().expect("changes").len(), 3);
    let fill = (4..MAX_CHANGED_ENTRIES)
        .map(|_| path("d.rs"))
        .collect::<Vec<_>>();
    update.merge(snapshot(id, &[]), &fill);
    assert_eq!(update.paths().expect("changes").len(), 4);
    update.merge(snapshot(id, &[file("z.rs", 1)]), &vec![path("e.rs")]);
    assert!(update.paths().is_none());
    assert!(update.latest().entry_for_path(&path("z.rs")).is_some());
    update.merge(snapshot(id, &[]), &Vec::new());
    assert!(update.paths().is_none());
    assert!(LineCountUpdate::new(snapshot(id, &[])).paths().is_none());
}

#[test]
fn batches_hold_requests_of_one_worktree() {
    assert_eq!((MAX_ACTIVE_BATCHES, MAX_BATCH_REQUESTS), (4, 2048));
    let one = WorktreeId::from_usize(1);
    let two = WorktreeId::from_usize(2);
    let many = (0..MAX_BATCH_REQUESTS + 1)
        .map(|index| file(&format!("{index:05}.rs"), 1))
        .collect::<Vec<_>>();
    let mut worker = LineCountWorker::new(LineCountFilter::default());
    update(
        &mut worker,
        vec![
            (two, Some(LineCountUpdate::new(snapshot(two, &[file("x.rs", 1)])))),
            (one, Some(LineCountUpdate::new(snapshot(one, &many)))),
        ],
    );
    let batches = worker.batches();
    assert_eq!(batches.len(), 3);
    assert_eq!(batches[0].paths.len(), MAX_BATCH_REQUESTS);
    assert_eq!(batches[1].paths.len(), 1);
    assert_eq!(batches[1].worktree_id, one);
    assert_eq!(names(&batches[2]), ["x.rs"]);
    assert_eq!(batches[2].worktree_id, two);
    assert_eq!(
        batches.iter().map(|batch| batch.id).collect::<Vec<_>>(),
        [0, 1, 2]
    );
    assert_eq!(worker.next_batch(), 3);

    // A worktree that is gone takes its batches with it, and no others.
    let mut cancelled = update(&mut worker, vec![(one, None)]);
    cancelled.sort();
    assert_eq!(cancelled, [0, 1]);
    assert!(worker.active.get(2).is_some());
    assert_eq!(worker.cache.line_count(one, &root(), false, false), None);
    worker.complete(2, Some(vec![result(&file("x.rs", 1), 3)]));
    assert_eq!(
        worker.cache.line_count(two, &root(), false, false),
        total(3, false)
    );
}

#[test]
fn requests_that_are_no_longer_wanted_are_dropped() {
    let id = WorktreeId::from_usize(1);
    let mut worker = LineCountWorker::new(LineCountFilter::default());
    update(
        &mut worker,
        vec![(
            id,
            Some(LineCountUpdate::new(snapshot(
                id,
                &[file("dir/a.rs", 1), file("dir/b.rs", 1), file("z.rs", 1)],
            ))),
        )],
    );
    // With the directory the entries below it go; their requests still wait, and
    // are dropped when their turn comes.
    update(
        &mut worker,
        vec![(
            id,
            Some(LineCountUpdate::incremental(
                snapshot(id, &[file("z.rs", 1)]),
                &vec![path("dir")],
            )),
        )],
    );
    assert_eq!(worker.pending.len(), 3);
    let batches = worker.batches();
    assert_eq!(batches.len(), 1);
    assert_eq!(names(&batches[0]), ["z.rs"]);
    assert_eq!(worker.pending.len(), 0);
}

#[test]
fn what_a_batch_does_not_bring_stays_without_a_count() {
    let id = WorktreeId::from_usize(1);
    let mut worker = LineCountWorker::new(LineCountFilter::default());
    let a = file("a.rs", 1);
    let b = file("b.rs", 1);
    update(
        &mut worker,
        vec![(
            id,
            Some(LineCountUpdate::new(snapshot(id, &[a.clone(), b.clone()]))),
        )],
    );
    let batches = worker.batches();
    // Of several results about a path the first one counts, and results about
    // other paths do not.
    worker.complete(
        batches[0].id,
        Some(vec![
            result(&a, 5),
            result(&a, 50),
            result(&file("other.rs", 1), 500),
        ]),
    );
    assert_eq!(
        worker.cache.line_count(id, &root(), false, false),
        total(5, true)
    );
    worker.complete(batches[0].id, None);
    assert_eq!(
        worker.cache.line_count(id, &root(), false, false),
        total(5, true)
    );
    assert_eq!(worker.cache.line_count(id, &b, false, false), None);
    assert!(worker.batches().is_empty());
}

#[test]
fn the_order_of_updates_does_not_matter() {
    let one = WorktreeId::from_usize(1);
    let two = WorktreeId::from_usize(2);
    let counted = |first: usize| {
        let mut worker = LineCountWorker::new(LineCountFilter::default());
        for turn in 0..2 {
            if turn == first {
                update(
                    &mut worker,
                    vec![(
                        one,
                        Some(LineCountUpdate::new(snapshot(one, &[file("a.rs", 1)]))),
                    )],
                );
            } else {
                update(
                    &mut worker,
                    vec![(
                        two,
                        Some(LineCountUpdate::new(snapshot(two, &[file("b.rs", 1)]))),
                    )],
                );
            }
        }
        worker
            .batches()
            .iter()
            .map(|batch| {
                (
                    batch.id,
                    batch.worktree_id.to_usize(),
                    names(batch).join(","),
                )
            })
            .collect::<Vec<_>>()
    };
    assert_eq!(counted(0), counted(1));
    assert_eq!(
        counted(0),
        [
            (0, 1, String::from("a.rs")),
            (1, 2, String::from("b.rs"))
        ]
    );
}

#[test]
fn batches_take_the_first_requests_and_share_none() {
    let id = WorktreeId::from_usize(1);
    let many = (0..4 * MAX_BATCH_REQUESTS + 3)
        .map(|index| file(&format!("{index:05}.rs"), 1))
        .collect::<Vec<_>>();
    let mut worker = LineCountWorker::new(LineCountFilter::default());
    update(
        &mut worker,
        vec![(id, Some(LineCountUpdate::new(snapshot(id, &many))))],
    );
    let batches = worker.batches();
    assert_eq!(batches.len(), MAX_ACTIVE_BATCHES);
    assert_eq!(worker.active.len(), MAX_ACTIVE_BATCHES);
    let mut batched = batches
        .iter()
        .flat_map(|batch| names(batch))
        .map(String::from)
        .collect::<Vec<_>>();
    batched.sort();
    let expected = (0..4 * MAX_BATCH_REQUESTS)
        .map(|index| format!("{index:05}.rs"))
        .collect::<Vec<_>>();
    assert_eq!(batched, expected);
    assert_eq!(worker.pending.len(), 3);
    // Without a free slot nothing moves.
    assert!(worker.batches().is_empty());
    assert_eq!(worker.pending.len(), 3);
    assert_eq!(worker.next_batch(), 4);
    // A slot that is free again takes what is left, and then nothing waits.
    worker.complete(batches[1].id, None);
    let more = worker.batches();
    assert_eq!(more.len(), 1);
    assert_eq!(more[0].id, 4);
    assert_eq!(names(&more[0]), ["08192.rs", "08193.rs", "08194.rs"]);
    assert_eq!(worker.pending.len(), 0);
}
