use line_counts::queue::PendingKey;
use line_counts::{
    Entry, EntryFingerprint, EntryKind, FileLineCount, LineCountCache, LineCountFilter,
    LineCountRequest, LineCountTotal, LineCountUpdate, LineCountWorker, MTime, OrderedMap,
    PathStyle, ProjectLineCount, ProjectLineCountFingerprint, RelPath, Snapshot, WorktreeId,
};

fn exact(lines: u64) -> LineCountTotal {
    LineCountTotal {
        lines,
        is_partial: false,
    }
}

fn partial(lines: u64) -> LineCountTotal {
    LineCountTotal {
        lines,
        is_partial: true,
    }
}

fn path(text: &str) -> RelPath {
    RelPath::from_unix_str(text).expect("a path in normal form")
}

fn text_result(request: &LineCountRequest, lines: u64) -> ProjectLineCount {
    ProjectLineCount {
        path: request.path.clone(),
        count: Some(FileLineCount::Text(lines)),
        fingerprint: Some(ProjectLineCountFingerprint {
            mtime: request.fingerprint.mtime.expect("missing mtime"),
            size: request.fingerprint.size,
            inode: request.fingerprint.inode,
        }),
    }
}

fn entry(text: &str, kind: EntryKind, is_ignored: bool, is_hidden: bool) -> Entry {
    Entry {
        kind,
        path: path(text),
        inode: text.len() as u64,
        mtime: Some(MTime::from_seconds_and_nanos(text.len() as u64 + 1, 0)),
        is_ignored,
        is_hidden,
        size: text.len() as u64,
        is_fifo: false,
    }
}

fn refs(entries: &[Entry]) -> Vec<&Entry> {
    entries.iter().collect()
}

fn pairs<'a>(
    requests: &'a [LineCountRequest],
    results: &'a [ProjectLineCount],
) -> Vec<(&'a LineCountRequest, Option<&'a ProjectLineCount>)> {
    requests.iter().zip(results.iter().map(Some)).collect()
}

fn ask(worker: &mut LineCountWorker, worktree_id: WorktreeId, entries: &[&Entry]) {
    for request in worker.cache.reset_worktree(worktree_id, entries) {
        worker.pending.insert(
            PendingKey {
                worktree_id,
                path: request.path.clone(),
            },
            request.fingerprint,
        );
    }
}

#[test]
fn aggregates_directory_line_counts() {
    let worktree_id = WorktreeId::from_usize(1);
    let root = entry("", EntryKind::Dir, false, false);
    let source = entry("src", EntryKind::Dir, false, false);
    let entries = [
        entry("hidden.rs", EntryKind::File, false, true),
        entry("ignored.rs", EntryKind::File, true, false),
        entry("scanning", EntryKind::PendingDir, false, false),
        entry("src/nested.rs", EntryKind::File, false, false),
        entry("unloaded", EntryKind::UnloadedDir, false, false),
        entry("visible.rs", EntryKind::File, false, false),
    ];
    let mut cache = LineCountCache::default();
    let requests = cache.reset_worktree(worktree_id, &refs(&entries));
    assert_eq!(cache.line_count(worktree_id, &root, false, false), None);

    let mut counted = Vec::new();
    for request in &requests {
        let lines = match request.path.as_unix_str() {
            "visible.rs" => 10,
            "ignored.rs" => 20,
            "hidden.rs" => 30,
            "src/nested.rs" => 5,
            path => panic!("unexpected path {path}"),
        };
        counted.push(text_result(request, lines));
    }
    assert!(cache.apply_many(worktree_id, &pairs(&requests, &counted)));

    assert_eq!(
        cache.line_count(worktree_id, &root, false, false),
        Some(partial(65))
    );
    assert!(cache
        .mark_pending_many(
            worktree_id,
            &[&entry("scanning", EntryKind::Dir, false, false)],
        )
        .is_empty());
    assert_eq!(
        cache.line_count(worktree_id, &root, false, false),
        Some(partial(65))
    );
    assert!(cache
        .mark_pending_many(
            worktree_id,
            &[&entry("unloaded", EntryKind::Dir, false, false)],
        )
        .is_empty());
    assert_eq!(
        cache.line_count(worktree_id, &root, false, false),
        Some(exact(65))
    );
    assert_eq!(
        cache.line_count(worktree_id, &root, true, false),
        Some(exact(45))
    );
    assert_eq!(
        cache.line_count(worktree_id, &root, false, true),
        Some(exact(35))
    );
    assert_eq!(
        cache.line_count(worktree_id, &root, true, true),
        Some(exact(15))
    );
    assert_eq!(
        cache.line_count(worktree_id, &source, false, false),
        Some(exact(5))
    );
}

#[test]
fn extension_filter_selects_counted_files() {
    let worktree_id = WorktreeId::from_usize(1);
    let root = entry("", EntryKind::Dir, false, false);
    let entries = [
        entry("Makefile", EntryKind::File, false, false),
        entry("data.JSON", EntryKind::File, false, false),
        entry("main.rs", EntryKind::File, false, false),
        entry("notes.md", EntryKind::File, false, false),
    ];

    let mut cache = LineCountCache::new(LineCountFilter::new("rs, .md , json", "json"));
    let requests = cache.reset_worktree(worktree_id, &refs(&entries));
    let counted = requests
        .iter()
        .map(|request| request.path.as_unix_str())
        .collect::<Vec<_>>();
    // `Makefile` has no extension, and `json` is excluded despite also being
    // included and differing in case.
    assert_eq!(counted, ["main.rs", "notes.md"]);

    let results = requests
        .iter()
        .map(|request| text_result(request, 3))
        .collect::<Vec<_>>();
    assert!(cache.apply_many(worktree_id, &pairs(&requests, &results)));
    assert_eq!(
        cache.line_count(worktree_id, &root, false, false),
        Some(exact(6))
    );

    let mut cache = LineCountCache::new(LineCountFilter::default());
    assert_eq!(cache.reset_worktree(worktree_id, &refs(&entries)).len(), 4);
}

#[test]
fn unreadable_files_do_not_block_directory_totals() {
    let worktree_id = WorktreeId::from_usize(1);
    let root = entry("", EntryKind::Dir, false, false);
    let entries = [
        entry("readable.rs", EntryKind::File, false, false),
        entry("unreadable.rs", EntryKind::File, false, false),
    ];
    let mut cache = LineCountCache::default();
    let requests = cache.reset_worktree(worktree_id, &refs(&entries));
    assert_eq!(cache.line_count(worktree_id, &root, false, false), None);

    let mut results = Vec::new();
    for request in &requests {
        let result = match request.path.as_unix_str() {
            "readable.rs" => Some(text_result(request, 7)),
            _ => None,
        };
        results.push(result);
    }
    let paired = requests
        .iter()
        .zip(results.iter().map(Option::as_ref))
        .collect::<Vec<_>>();
    assert!(cache.apply_many(worktree_id, &paired));

    assert_eq!(
        cache.line_count(worktree_id, &root, false, false),
        Some(partial(7))
    );
    assert_eq!(
        cache.line_count(
            worktree_id,
            &entry("unreadable.rs", EntryKind::File, false, false),
            false,
            false,
        ),
        None
    );
}

#[test]
fn deduplicates_pending_requests_and_preserves_completed_results() {
    let worktree_id = WorktreeId::from_usize(1);
    let file = entry("file.rs", EntryKind::File, false, false);
    let mut cache = LineCountCache::default();
    let requests = cache.reset_worktree(worktree_id, &[&file]);
    assert_eq!(requests.len(), 1);
    assert!(cache.mark_pending_many(worktree_id, &[&file]).is_empty());
    assert!(cache.reset_worktree(worktree_id, &[&file]).is_empty());
    let request = requests.first().expect("missing request");
    let result = text_result(request, 4);
    assert!(cache.apply_many(worktree_id, &[(request, Some(&result))]));
    assert!(!cache.apply_many(worktree_id, &[(request, None)]));
    assert_eq!(
        cache.line_count(worktree_id, &file, false, false),
        Some(exact(4))
    );
}

#[test]
fn streams_results_and_reuses_finished_slots_before_slow_batches() {
    let worktree_id = WorktreeId::from_usize(1);
    let entries = (0..10000)
        .map(|index| entry(&format!("{index:05}.rs"), EntryKind::File, false, false))
        .collect::<Vec<_>>();
    let mut worker = LineCountWorker::new(LineCountFilter::default());
    ask(&mut worker, worktree_id, &refs(&entries));
    let batches = worker.batches();
    assert_eq!(batches.len(), 4);
    assert!(worker.batches().is_empty());
    let first = batches.first().expect("missing batch");
    let request = {
        let requests = &worker.active.get(first.id).expect("missing batch").requests;
        assert!(requests.len() > 0, "missing request");
        LineCountRequest {
            path: requests.key_at(0).clone(),
            fingerprint: *requests.value_at(0),
        }
    };
    let result = text_result(&request, 7);
    worker.complete(first.id, Some(vec![result]));
    let file = entries
        .iter()
        .find(|entry| entry.path.as_unix_str() == request.path.as_unix_str())
        .expect("missing file");
    assert_eq!(
        worker.cache.line_count(worktree_id, file, false, false),
        Some(exact(7))
    );
    let last = batches.last().expect("missing batch");
    worker.complete(last.id, None);
    assert_eq!(worker.batches().len(), 1);
    assert!(worker.active.get(first.id).is_some());

    let mut updates = OrderedMap::new();
    updates.insert(worktree_id, None);
    let cancelled = worker.update(updates);
    assert_eq!(cancelled.len(), 4);
    assert!(worker.batches().is_empty());
    assert_eq!(
        worker.cache.line_count(worktree_id, file, false, false),
        None
    );
    ask(&mut worker, worktree_id, &[file]);
    let empty_snapshot = Snapshot::new(
        worktree_id,
        path("root"),
        String::from("/root"),
        PathStyle::Unix,
    );
    let mut updates = OrderedMap::new();
    updates.insert(worktree_id, Some(LineCountUpdate::new(empty_snapshot)));
    worker.update(updates);
    assert_eq!(worker.pending.len(), 0);
}

#[test]
fn ignores_stale_results() {
    let worktree_id = WorktreeId::from_usize(1);
    let mut file = entry("file.rs", EntryKind::File, false, false);
    let mut cache = LineCountCache::default();
    let old_request = cache
        .reset_worktree(worktree_id, &[&file])
        .pop()
        .expect("missing request");
    file.size += 1;
    assert_eq!(cache.mark_pending_many(worktree_id, &[&file]).len(), 1);

    let stale = text_result(&old_request, 10);
    assert!(!cache.apply_many(worktree_id, &[(&old_request, Some(&stale))]));
    assert_eq!(cache.line_count(worktree_id, &file, false, false), None);
}

#[test]
fn fingerprint_of_an_entry_without_mtime_agrees_with_any() {
    let found = ProjectLineCountFingerprint {
        mtime: MTime::from_seconds_and_nanos(5, 6),
        size: 7,
        inode: 8,
    };
    let shown = EntryFingerprint {
        mtime: None,
        size: 7,
        inode: 8,
    };
    assert!(shown.matches(found));
    assert!(EntryFingerprint {
        mtime: Some(found.mtime),
        ..shown
    }
    .matches(found));
    assert!(!EntryFingerprint {
        mtime: Some(MTime::from_seconds_and_nanos(5, 7)),
        ..shown
    }
    .matches(found));
    assert!(!EntryFingerprint { size: 6, ..shown }.matches(found));
    assert!(!EntryFingerprint { inode: 9, ..shown }.matches(found));
}

#[test]
fn results_of_another_state_leave_no_count() {
    let worktree_id = WorktreeId::from_usize(3);
    let root = entry("", EntryKind::Dir, false, false);
    let file = entry("a.rs", EntryKind::File, false, false);
    let other = entry("b.rs", EntryKind::File, false, false);
    let binary = entry("c.bin", EntryKind::File, false, false);
    let mut cache = LineCountCache::default();
    let requests = cache.reset_worktree(worktree_id, &[&file, &other, &binary]);
    assert_eq!(requests.len(), 3);
    let mut changed = text_result(&requests[0], 5);
    changed.fingerprint = Some(ProjectLineCountFingerprint {
        size: 99,
        ..changed.fingerprint.expect("missing fingerprint")
    });
    let good = text_result(&requests[1], 6);
    let mut kind = text_result(&requests[2], 0);
    kind.count = Some(FileLineCount::Binary);
    assert!(cache.apply_many(
        worktree_id,
        &[
            (&requests[0], Some(&changed)),
            (&requests[1], Some(&good)),
            (&requests[2], Some(&kind)),
        ],
    ));
    assert_eq!(cache.line_count(worktree_id, &file, false, false), None);
    assert_eq!(cache.line_count(worktree_id, &binary, false, false), None);
    assert_eq!(
        cache.line_count(worktree_id, &root, false, false),
        Some(partial(6))
    );
    // A file without a count is asked for again when it shows up as changed,
    // but not when all entries are taken in anew.
    assert!(cache
        .reset_worktree(worktree_id, &[&file, &other, &binary])
        .is_empty());
    let again = cache.mark_pending_many(worktree_id, &[&file, &other, &binary]);
    assert_eq!(again.len(), 1);
    assert_eq!(again[0].path.as_unix_str(), "a.rs");
}

#[test]
fn removing_a_directory_spares_its_neighbours() {
    let worktree_id = WorktreeId::from_usize(1);
    let root = entry("", EntryKind::Dir, false, false);
    let names = ["a.rs", "a/b.rs", "a/c/d.rs", "ab.rs", "b/a/x.rs"];
    let entries = names
        .iter()
        .map(|name| entry(name, EntryKind::File, false, false))
        .collect::<Vec<_>>();
    let mut cache = LineCountCache::default();
    let requests = cache.reset_worktree(worktree_id, &refs(&entries));
    let results = requests
        .iter()
        .map(|request| text_result(request, 1))
        .collect::<Vec<_>>();
    assert!(cache.apply_many(worktree_id, &pairs(&requests, &results)));
    assert_eq!(
        cache.line_count(
            worktree_id,
            &entry("a", EntryKind::Dir, false, false),
            false,
            false
        ),
        Some(exact(2))
    );
    let before = cache.clone();
    cache.remove_subtree(worktree_id, &path("a"));
    assert_eq!(
        cache.line_count(worktree_id, &root, false, false),
        Some(exact(3))
    );
    assert_eq!(
        cache.line_count(
            worktree_id,
            &entry("a", EntryKind::Dir, false, false),
            false,
            false
        ),
        Some(exact(0))
    );
    assert_eq!(
        before.line_count(worktree_id, &root, false, false),
        Some(exact(5))
    );
    cache.remove_worktree(worktree_id);
    assert_eq!(cache.line_count(worktree_id, &root, false, false), None);
}

#[test]
fn fifos_and_directories_are_not_counted() {
    let worktree_id = WorktreeId::from_usize(1);
    let mut fifo = entry("pipe", EntryKind::File, false, false);
    fifo.is_fifo = true;
    let directory = entry("dir", EntryKind::Dir, false, false);
    let mut cache = LineCountCache::default();
    assert!(!cache.counts_file(&fifo));
    assert!(!cache.counts_file(&directory));
    assert!(cache
        .reset_worktree(worktree_id, &[&fifo, &directory])
        .is_empty());
    assert_eq!(
        cache.line_count(
            worktree_id,
            &entry("", EntryKind::Dir, false, false),
            false,
            false
        ),
        Some(exact(0))
    );
}
