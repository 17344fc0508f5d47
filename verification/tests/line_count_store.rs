use line_counts::clock::timestamp_from;
use line_counts::rows::{
    can_persist, read_rows, rows_fit, rows_for, Counted, LineCountRow, StoreError,
};
use line_counts::store::{retention_cutoff, LoadPlan};
use line_counts::transaction::TransactionOutcome;
use line_counts::{
    unix_timestamp, FileFingerprint, FileLineCount, LineCountCandidate, LineCountStore, MTime,
    OrderedMap, RelPath, WorktreeRoot,
};

/// The rows of one worktree, as a database keeps them.
struct Database {
    rows: Vec<LineCountRow>,
    version: i64,
}

fn copy_of(row: &LineCountRow) -> LineCountRow {
    LineCountRow {
        path: row.path.clone(),
        ..*row
    }
}

impl Database {
    fn new() -> Database {
        Database {
            rows: Vec::new(),
            version: 1,
        }
    }

    fn select(&self) -> Vec<LineCountRow> {
        self.rows.iter().map(copy_of).collect()
    }

    fn upsert(&mut self, row: &LineCountRow) {
        self.delete(&row.path);
        self.rows.push(copy_of(row));
    }

    fn delete(&mut self, path: &str) {
        self.rows.retain(|row| row.path != path);
    }
}

fn load(store: &mut LineCountStore, database: &Database, root: &WorktreeRoot) {
    let now = unix_timestamp();
    let plan = store.load_plan(root, now, database.version);
    let rows = if plan.must_reload {
        database.select()
    } else {
        Vec::new()
    };
    assert!(rows_fit(&rows));
    store
        .load_worktree(root, now, database.version, &rows)
        .expect("readable rows");
}

fn lookup(
    store: &mut LineCountStore,
    database: &Database,
    root: &WorktreeRoot,
    candidates: &[LineCountCandidate],
) -> OrderedMap<RelPath, FileLineCount> {
    load(store, database, root);
    store.lookup(root, candidates).expect("a loaded worktree")
}

fn keep(
    store: &mut LineCountStore,
    database: &mut Database,
    root: &WorktreeRoot,
    counts: &[Counted],
) {
    load(store, database, root);
    for row in rows_for(counts).expect("times after the epoch") {
        database.upsert(&row);
    }
    store
        .store(root, counts, TransactionOutcome::Committed)
        .expect("a loaded worktree");
}

fn reconcile(
    store: &mut LineCountStore,
    database: &mut Database,
    root: &WorktreeRoot,
    valid_paths: &OrderedMap<RelPath, ()>,
) -> usize {
    load(store, database, root);
    let stale = store
        .stale_paths(root, valid_paths)
        .expect("a loaded worktree");
    for path in &stale {
        database.delete(path.as_unix_str());
    }
    store
        .reconcile(root, &stale, TransactionOutcome::Committed)
        .expect("a loaded worktree");
    stale.len()
}

fn path(text: &str) -> RelPath {
    RelPath::from_unix_str(text).expect("a path in normal form")
}

fn candidate(text: &str, size: u64, inode: u64) -> LineCountCandidate {
    LineCountCandidate {
        path: path(text),
        abs_path: format!("/worktree/{text}"),
        fingerprint: Some(FileFingerprint {
            mtime: MTime::from_seconds_and_nanos(100, 200),
            size,
            inode,
        }),
    }
}

fn row(text: &str) -> LineCountRow {
    LineCountRow {
        path: String::from(text),
        mtime_seconds: 100,
        mtime_nanos: 200,
        size: 3,
        inode: 4,
        line_count: Some(5),
        is_binary: false,
    }
}

#[test]
fn persists_counts_and_invalidates_changed_fingerprints() {
    let mut database = Database::new();
    let worktree_root = WorktreeRoot::from_bytes(b"/tmp/worktree".to_vec());
    let path = path("src/main.rs");
    let candidate = candidate("src/main.rs", 300, 400);

    {
        let mut store = LineCountStore::new();
        assert_eq!(
            lookup(
                &mut store,
                &database,
                &worktree_root,
                std::slice::from_ref(&candidate)
            )
            .len(),
            0
        );
        keep(
            &mut store,
            &mut database,
            &worktree_root,
            &[(candidate.clone(), FileLineCount::Text(42))],
        );
    }

    let mut store = LineCountStore::new();
    assert_eq!(
        lookup(
            &mut store,
            &database,
            &worktree_root,
            std::slice::from_ref(&candidate)
        )
        .get(&path),
        Some(&FileLineCount::Text(42))
    );

    let changed_candidate = LineCountCandidate {
        fingerprint: Some(FileFingerprint {
            size: 301,
            ..candidate.fingerprint.expect("candidate has no fingerprint")
        }),
        ..candidate.clone()
    };
    assert_eq!(
        lookup(
            &mut store,
            &database,
            &worktree_root,
            &[changed_candidate]
        )
        .len(),
        0
    );
    reconcile(
        &mut store,
        &mut database,
        &worktree_root,
        &OrderedMap::new(),
    );
    assert_eq!(
        lookup(
            &mut store,
            &database,
            &worktree_root,
            std::slice::from_ref(&candidate)
        )
        .len(),
        0
    );
}

#[test]
fn persists_binary_classification() {
    let mut database = Database::new();
    let worktree_root = WorktreeRoot::from_bytes(b"/tmp/worktree".to_vec());
    let path = path("image.dat");
    let candidate = candidate("image.dat", 16, 2);
    let mut store = LineCountStore::new();
    lookup(
        &mut store,
        &database,
        &worktree_root,
        std::slice::from_ref(&candidate),
    );
    keep(
        &mut store,
        &mut database,
        &worktree_root,
        &[(candidate.clone(), FileLineCount::Binary)],
    );

    let mut reopened = LineCountStore::new();
    assert_eq!(
        lookup(&mut reopened, &database, &worktree_root, &[candidate]).get(&path),
        Some(&FileLineCount::Binary)
    );
}

#[test]
fn reconciling_removes_only_what_is_stale() {
    let mut database = Database::new();
    let root = WorktreeRoot::from_bytes(b"/w".to_vec());
    let mut store = LineCountStore::new();
    let kept = candidate("kept.rs", 1, 1);
    let gone = candidate("gone.rs", 2, 2);
    keep(
        &mut store,
        &mut database,
        &root,
        &[
            (kept.clone(), FileLineCount::Text(1)),
            (gone.clone(), FileLineCount::Text(2)),
        ],
    );
    let mut valid = OrderedMap::new();
    valid.insert(path("kept.rs"), ());
    valid.insert(path("new.rs"), ());
    assert_eq!(reconcile(&mut store, &mut database, &root, &valid), 1);
    assert_eq!(reconcile(&mut store, &mut database, &root, &valid), 0);
    let both = [kept, gone];
    let found = lookup(&mut store, &database, &root, &both);
    assert_eq!(found.len(), 1);
    assert_eq!(found.get(&path("kept.rs")), Some(&FileLineCount::Text(1)));
    // Reading the rows back gives the same.
    let read = lookup(&mut LineCountStore::new(), &database, &root, &both);
    assert_eq!(read.len(), 1);
    assert_eq!(read.get(&path("kept.rs")), Some(&FileLineCount::Text(1)));
}

#[test]
fn later_counts_replace_earlier_ones() {
    let mut database = Database::new();
    let root = WorktreeRoot::from_bytes(b"/w".to_vec());
    let mut store = LineCountStore::new();
    let old = candidate("a.rs", 1, 1);
    let new = candidate("a.rs", 2, 1);
    let unseen = LineCountCandidate {
        fingerprint: None,
        ..new.clone()
    };
    keep(
        &mut store,
        &mut database,
        &root,
        &[
            (old.clone(), FileLineCount::Text(1)),
            (new.clone(), FileLineCount::Text(2)),
            (unseen.clone(), FileLineCount::Text(3)),
        ],
    );
    assert_eq!(database.rows.len(), 1);
    for mut store in [store, LineCountStore::new()] {
        assert_eq!(
            lookup(
                &mut store,
                &database,
                &root,
                &[old.clone(), unseen.clone()]
            )
            .len(),
            0
        );
        assert_eq!(
            lookup(
                &mut store,
                &database,
                &root,
                &[unseen.clone(), new.clone()]
            )
            .get(&path("a.rs")),
            Some(&FileLineCount::Text(2))
        );
    }
}

#[test]
fn rows_are_read_again_when_something_else_has_written() {
    let mut database = Database::new();
    let root = WorktreeRoot::from_bytes(b"/w".to_vec());
    let mut store = LineCountStore::new();
    load(&mut store, &database, &root);
    database.upsert(&row("a.rs"));
    let seen = LineCountCandidate {
        path: path("a.rs"),
        abs_path: String::from("/w/a.rs"),
        fingerprint: Some(FileFingerprint {
            mtime: MTime::from_seconds_and_nanos(100, 200),
            size: 3,
            inode: 4,
        }),
    };
    let seen = [seen];
    assert_eq!(lookup(&mut store, &database, &root, &seen).len(), 0);
    database.version = 2;
    assert_eq!(
        lookup(&mut store, &database, &root, &seen).get(&path("a.rs")),
        Some(&FileLineCount::Text(5))
    );
}

#[test]
fn accesses_are_noted_once_a_day() {
    let day: i64 = 24 * 60 * 60;
    let root = WorktreeRoot::from_bytes(b"/w".to_vec());
    let other = WorktreeRoot::from_bytes(b"/v".to_vec());
    let mut store = LineCountStore::new();
    assert_eq!(
        store.load_plan(&root, 1000, 1),
        LoadPlan {
            must_refresh_access: true,
            must_reload: true
        }
    );
    assert_eq!(store.load_worktree(&root, 1000, 1, &Vec::new()), Ok(()));
    assert_eq!(
        store.load_plan(&root, 1000 + day - 1, 1),
        LoadPlan {
            must_refresh_access: false,
            must_reload: false
        }
    );
    assert_eq!(
        store.load_plan(&root, 1000 + day, 1),
        LoadPlan {
            must_refresh_access: true,
            must_reload: false
        }
    );
    assert_eq!(
        store.load_plan(&other, 1000, 1),
        LoadPlan {
            must_refresh_access: true,
            must_reload: true
        }
    );
    assert_eq!(
        store.load_worktree(&root, 1000 + day, 1, &Vec::new()),
        Ok(())
    );
    assert_eq!(
        store.load_plan(&root, 1000 + 2 * day - 1, 1).must_refresh_access,
        false
    );
    // Clocks far apart do not overflow.
    assert_eq!(
        store.load_plan(&root, i64::MIN, 1).must_refresh_access,
        false
    );
    assert_eq!(
        store.load_plan(&root, i64::MAX, 1).must_refresh_access,
        true
    );
}

#[test]
fn worktrees_that_were_not_loaded_have_no_counts() {
    let root = WorktreeRoot::from_bytes(b"/w".to_vec());
    let mut store = LineCountStore::new();
    assert!(matches!(
        store.lookup(&root, &[]),
        Err(StoreError::NotLoaded)
    ));
    assert!(matches!(
        store.stale_paths(&root, &OrderedMap::new()),
        Err(StoreError::NotLoaded)
    ));
    assert_eq!(
        store.reconcile(&root, &[], TransactionOutcome::Committed),
        Err(StoreError::NotLoaded)
    );
    assert_eq!(
        store.store(&root, &[], TransactionOutcome::NotBegun),
        Ok(())
    );
    assert_eq!(
        store.store(
            &root,
            &[(candidate("a.rs", 1, 1), FileLineCount::Text(1))],
            TransactionOutcome::Committed,
        ),
        Err(StoreError::NotLoaded)
    );
    assert_eq!(root.as_bytes(), b"/w");
}

#[test]
fn rows_that_make_no_sense_are_refused() {
    let mut bad_path = row("a/../b.rs");
    assert!(matches!(
        read_rows(&vec![copy_of(&bad_path)]),
        Err(StoreError::InvalidPath)
    ));
    bad_path.path = String::from("/a.rs");
    assert!(matches!(
        read_rows(&vec![bad_path]),
        Err(StoreError::InvalidPath)
    ));
    let mut early = row("a.rs");
    early.mtime_seconds = -1;
    assert!(matches!(
        read_rows(&vec![copy_of(&early)]),
        Err(StoreError::NegativeMtime)
    ));
    let mut empty = row("a.rs");
    empty.line_count = None;
    assert!(matches!(
        read_rows(&vec![copy_of(&empty)]),
        Err(StoreError::MissingCount)
    ));
    // The first thing wrong is the one reported.
    assert!(matches!(
        read_rows(&vec![row("b.rs"), empty, early]),
        Err(StoreError::MissingCount)
    ));
    let mut binary = row("a.bin");
    binary.line_count = None;
    binary.is_binary = true;
    let kept = read_rows(&vec![binary]).expect("a readable row");
    assert_eq!(
        kept.get(&path("a.bin")).expect("a count").count,
        FileLineCount::Binary
    );
}

#[test]
fn unreadable_rows_leave_everything_as_it_was() {
    let root = WorktreeRoot::from_bytes(b"/w".to_vec());
    let mut store = LineCountStore::new();
    assert_eq!(store.load_worktree(&root, 7, 1, &vec![row("a.rs")]), Ok(()));
    let mut early = row("b.rs");
    early.mtime_seconds = -5;
    assert_eq!(
        store.load_worktree(&root, 8, 2, &vec![early]),
        Err(StoreError::NegativeMtime)
    );
    assert_eq!(
        store.load_plan(&root, 8, 1),
        LoadPlan {
            must_refresh_access: false,
            must_reload: false
        }
    );
}

#[test]
fn times_too_late_for_the_type_are_noticed() {
    let mut late = row("a.rs");
    late.mtime_seconds = i64::MAX;
    late.mtime_nanos = 999_999_999;
    assert!(rows_fit(&vec![copy_of(&late)]));
    late.mtime_nanos = 1_000_000_000;
    assert!(!rows_fit(&vec![copy_of(&late)]));
    // Behind a row with an error nothing is read any more.
    let mut empty = row("b.rs");
    empty.line_count = None;
    assert!(rows_fit(&vec![empty, late]));
}

#[test]
fn counts_of_files_older_than_the_epoch_are_not_kept() {
    let mut old = candidate("a.rs", 1, 1);
    old.fingerprint = Some(FileFingerprint {
        mtime: MTime::new(-1, 5).expect("a valid time"),
        size: 1,
        inode: 1,
    });
    assert!(matches!(
        rows_for(&[(old, FileLineCount::Text(1))]),
        Err(StoreError::MtimeBeforeEpoch)
    ));
}

#[test]
fn rows_hold_what_is_counted() {
    let counts = [
        (candidate("a.rs", 300, 400), FileLineCount::Text(42)),
        (candidate("b.bin", 16, 2), FileLineCount::Binary),
    ];
    let rows = rows_for(&counts).expect("times after the epoch");
    assert_eq!(rows.len(), 2);
    assert_eq!(rows[0].path, "a.rs");
    assert_eq!(rows[0].mtime_seconds, 100);
    assert_eq!(rows[0].mtime_nanos, 200);
    assert_eq!(rows[0].size, 300);
    assert_eq!(rows[0].inode, 400);
    assert_eq!(rows[0].line_count, Some(42));
    assert!(!rows[0].is_binary);
    assert_eq!(rows[1].line_count, None);
    assert!(rows[1].is_binary);
}

#[test]
fn worktrees_are_retained_for_ninety_days() {
    assert_eq!(retention_cutoff(10_000_000), 10_000_000 - 7_776_000);
    assert_eq!(retention_cutoff(0), -7_776_000);
    assert_eq!(retention_cutoff(i64::MIN), i64::MIN);
    assert_eq!(retention_cutoff(i64::MIN + 7_776_000), i64::MIN);
    assert_eq!(retention_cutoff(i64::MIN + 7_776_001), i64::MIN + 1);
}

#[test]
fn timestamps_count_seconds_since_the_epoch() {
    assert_eq!(timestamp_from(None), 0);
    assert_eq!(timestamp_from(Some(12)), 12);
    assert_eq!(timestamp_from(Some(i64::MAX as u64)), i64::MAX);
    assert_eq!(timestamp_from(Some(i64::MAX as u64 + 1)), 0);
    // The clock stands somewhere between two years well known.
    let now = unix_timestamp();
    assert!(now > 1_600_000_000);
    assert!(now < 10_000_000_000);
}

#[test]
fn counts_are_stored_all_together_or_not_at_all() {
    let mut database = Database::new();
    let root = WorktreeRoot::from_bytes(b"/w".to_vec());
    let mut store = LineCountStore::new();
    let first = candidate("a.rs", 1, 1);
    let second = candidate("b.rs", 2, 2);
    keep(
        &mut store,
        &mut database,
        &root,
        &[(first.clone(), FileLineCount::Text(1))],
    );
    let both = [first.clone(), second.clone()];
    let unchanged = |store: &LineCountStore| {
        let found = store.lookup(&root, &both).expect("a loaded worktree");
        assert_eq!(found.len(), 1);
        assert_eq!(found.get(&path("a.rs")), Some(&FileLineCount::Text(1)));
    };

    // A transaction that is not committed.
    let more = [
        (first.clone(), FileLineCount::Text(10)),
        (second.clone(), FileLineCount::Text(20)),
    ];
    for outcome in [
        TransactionOutcome::NotBegun,
        TransactionOutcome::OperationFailed,
        TransactionOutcome::CommitFailed,
        TransactionOutcome::CommitNotPrepared,
        TransactionOutcome::RollbackNotPrepared,
    ] {
        assert_eq!(
            store.store(&root, &more, outcome),
            Err(StoreError::NotCommitted)
        );
        unchanged(&store);
    }

    // A time before the epoch behind counts that could be kept.
    let mut old = candidate("c.rs", 3, 3);
    old.fingerprint = Some(FileFingerprint {
        mtime: MTime::new(-1, 5).expect("a valid time"),
        size: 3,
        inode: 3,
    });
    let with_old = [
        (first, FileLineCount::Text(10)),
        (second, FileLineCount::Text(20)),
        (old, FileLineCount::Text(30)),
    ];
    assert!(!can_persist(&with_old));
    for outcome in [
        TransactionOutcome::OperationFailed,
        TransactionOutcome::Committed,
    ] {
        assert_eq!(
            store.store(&root, &with_old, outcome),
            Err(StoreError::MtimeBeforeEpoch)
        );
        unchanged(&store);
    }
    assert!(can_persist(&more));
    assert_eq!(
        store.store(&root, &more, TransactionOutcome::Committed),
        Ok(())
    );
    assert_eq!(store.lookup(&root, &both).expect("a loaded worktree").len(), 2);
}

#[test]
fn stale_counts_are_forgotten_all_together_or_not_at_all() {
    let mut database = Database::new();
    let root = WorktreeRoot::from_bytes(b"/w".to_vec());
    let mut store = LineCountStore::new();
    let one = candidate("a.rs", 1, 1);
    keep(
        &mut store,
        &mut database,
        &root,
        &[(one.clone(), FileLineCount::Text(1))],
    );
    let stale = [path("a.rs")];
    let seen = [one];
    assert_eq!(
        store.reconcile(&root, &stale, TransactionOutcome::CommitFailed),
        Err(StoreError::NotCommitted)
    );
    assert_eq!(store.lookup(&root, &seen).expect("a loaded worktree").len(), 1);
    assert_eq!(
        store.reconcile(&root, &[], TransactionOutcome::NotBegun),
        Ok(())
    );
    assert_eq!(
        store.reconcile(&root, &stale, TransactionOutcome::Committed),
        Ok(())
    );
    assert_eq!(store.lookup(&root, &seen).expect("a loaded worktree").len(), 0);
}
