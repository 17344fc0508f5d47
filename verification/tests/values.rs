use line_counts::counts::{resolved_state, LineCountEntry, LineCountState, LineCountSummary};
use line_counts::{
    is_unscanned_directory, Entry, EntryKind, FileLineCount, Key, LineCountAggregate,
    LineCountCache, LineCountFilter, LineCountTotal, MTime, OrderedMap, Precedence,
    ProjectLineCount, ProjectLineCountFingerprint, RelPath, WorktreeId,
};

fn path(text: &str) -> RelPath {
    RelPath::from_unix_str(text).expect("a path in normal form")
}

fn entry(text: &str, kind: EntryKind) -> Entry {
    Entry {
        kind,
        path: path(text),
        inode: 2,
        mtime: Some(MTime::from_seconds_and_nanos(3, 4)),
        size: 5,
        is_ignored: false,
        is_hidden: false,
        is_fifo: false,
    }
}

#[test]
fn aggregates_add_up_and_saturate() {
    let mut sum = LineCountAggregate::zero();
    sum.add(&LineCountAggregate {
        lines: 3,
        incomplete_entries: 1,
    });
    sum.add(&LineCountAggregate {
        lines: 4,
        incomplete_entries: 2,
    });
    assert_eq!((sum.lines, sum.incomplete_entries), (7, 3));
    sum.add(&LineCountAggregate {
        lines: u64::MAX,
        incomplete_entries: u32::MAX,
    });
    assert_eq!(
        (sum.lines, sum.incomplete_entries),
        (u64::MAX, u32::MAX)
    );
}

#[test]
fn totals_are_none_while_there_is_nothing_to_show() {
    let resolve = |lines: u64, incomplete_entries: u32| {
        LineCountAggregate {
            lines,
            incomplete_entries,
        }
        .resolved_line_count()
    };
    assert_eq!(resolve(0, 1), None);
    assert_eq!(
        resolve(0, 0),
        Some(LineCountTotal {
            lines: 0,
            is_partial: false
        })
    );
    assert_eq!(
        resolve(2, 1),
        Some(LineCountTotal {
            lines: 2,
            is_partial: true
        })
    );
    assert_eq!(
        resolve(2, 0),
        Some(LineCountTotal {
            lines: 2,
            is_partial: false
        })
    );
}

#[test]
fn totals_of_directories_saturate() {
    let id = WorktreeId::from_usize(1);
    let files = [entry("a.rs", EntryKind::File), entry("b.rs", EntryKind::File)];
    let mut cache = LineCountCache::default();
    let requests = cache.reset_worktree(id, &[&files[0], &files[1]]);
    let results = requests
        .iter()
        .map(|request| ProjectLineCount {
            path: request.path.clone(),
            count: Some(FileLineCount::Text(u64::MAX - 1)),
            fingerprint: Some(ProjectLineCountFingerprint {
                mtime: MTime::from_seconds_and_nanos(3, 4),
                size: 5,
                inode: 2,
            }),
        })
        .collect::<Vec<_>>();
    let paired = requests
        .iter()
        .zip(results.iter().map(Some))
        .collect::<Vec<_>>();
    assert!(cache.apply_many(id, &paired));
    assert_eq!(
        cache.line_count(id, &entry("", EntryKind::Dir), false, false),
        Some(LineCountTotal {
            lines: u64::MAX,
            is_partial: false
        })
    );
}

#[test]
fn unscanned_directories_are_those_pending_or_unloaded() {
    assert!(is_unscanned_directory(&entry("a", EntryKind::PendingDir)));
    assert!(is_unscanned_directory(&entry("a", EntryKind::UnloadedDir)));
    assert!(!is_unscanned_directory(&entry("a", EntryKind::Dir)));
    assert!(!is_unscanned_directory(&entry("a", EntryKind::File)));
    assert_eq!(
        LineCountEntry::pending_directory(&entry("a", EntryKind::UnloadedDir)).state,
        LineCountState::Unscanned
    );
    assert_eq!(
        LineCountEntry::pending_directory(&entry("a", EntryKind::PendingDir)).state,
        LineCountState::Pending
    );
}

#[test]
fn summaries_part_the_shown_from_the_rest() {
    let mut ignored = entry("a.rs", EntryKind::File);
    ignored.is_ignored = true;
    let mut hidden = entry("b.rs", EntryKind::File);
    hidden.is_hidden = true;
    let mut sum = LineCountSummary::zero();
    for (entry, lines) in [(&ignored, 10), (&hidden, 200)] {
        let counted = LineCountEntry {
            state: LineCountState::Text(lines),
            ..LineCountEntry::pending_file(entry)
        };
        sum.add_summary(&counted.summary());
    }
    assert_eq!(sum.all.lines, 210);
    assert_eq!(sum.non_ignored.lines, 200);
    assert_eq!(sum.non_hidden.lines, 10);
    assert_eq!(sum.visible.lines, 0);
}

#[test]
fn states_follow_from_results() {
    let file = entry("a.rs", EntryKind::File);
    let mut cache = LineCountCache::default();
    let request = cache
        .reset_worktree(WorktreeId::from_usize(1), &[&file])
        .pop()
        .expect("a request");
    let mut result = ProjectLineCount {
        path: path("a.rs"),
        count: Some(FileLineCount::Text(9)),
        fingerprint: Some(ProjectLineCountFingerprint {
            mtime: MTime::from_seconds_and_nanos(3, 4),
            size: 5,
            inode: 2,
        }),
    };
    assert_eq!(
        resolved_state(&request, Some(&result)),
        LineCountState::Text(9)
    );
    result.count = Some(FileLineCount::Binary);
    assert_eq!(
        resolved_state(&request, Some(&result)),
        LineCountState::Binary
    );
    result.count = None;
    assert_eq!(
        resolved_state(&request, Some(&result)),
        LineCountState::Unavailable
    );
    result.count = Some(FileLineCount::Text(9));
    result.fingerprint = None;
    assert_eq!(
        resolved_state(&request, Some(&result)),
        LineCountState::Unavailable
    );
    assert_eq!(resolved_state(&request, None), LineCountState::Unavailable);
}

#[test]
fn times_carry_whole_seconds_among_the_nanoseconds() {
    let time = MTime::from_seconds_and_nanos(5, 3_000_000_007);
    assert_eq!(time.to_seconds_and_nanos_for_persistence(), Some((8, 7)));
    assert_eq!(Some(time), MTime::new(8, 7));
    assert_eq!(MTime::new(8, 1_000_000_000), None);
    let early = MTime::new(-1, 999_999_999).expect("a valid time");
    assert_eq!(early.to_seconds_and_nanos_for_persistence(), None);
}

#[test]
fn paths_in_normal_form_are_accepted() {
    for text in ["", "a", "a/b.rs", ".a", "..a", "a..", "...", "a b/\u{e9}"] {
        assert_eq!(path(text).as_unix_str(), text);
    }
    for text in ["/", "/a", "a/", "a//b", ".", "..", "a/./b", "a/../b", "./a", "a/.."] {
        assert!(RelPath::from_unix_str(text).is_err(), "{text}");
    }
    assert!(path("").is_empty());
    assert!(!path("a").is_empty());
    assert_eq!(path("a/b/c").components(), ["a", "b", "c"]);
    assert!(path("").components().is_empty());
}

#[test]
fn paths_lie_under_their_directories() {
    assert!(path("a/b").starts_with(&path("a")));
    assert!(path("a").starts_with(&path("a")));
    assert!(path("a").starts_with(&path("")));
    assert!(!path("ab").starts_with(&path("a")));
    assert!(!path("a").starts_with(&path("a/b")));
    assert!(!path("b/a").starts_with(&path("a")));
}

#[test]
fn extensions_follow_the_last_dot() {
    assert_eq!(path("a.rs").extension(), Some("rs"));
    assert_eq!(path("d.x/a.tar.gz").extension(), Some("gz"));
    assert_eq!(path("d.x/a").extension(), None);
    assert_eq!(path(".bashrc").extension(), None);
    assert_eq!(path(".a.rs").extension(), Some("rs"));
    assert_eq!(path("a.").extension(), Some(""));
    assert_eq!(path("").extension(), None);
}

#[test]
fn directories_come_right_before_what_is_below_them() {
    assert!(matches!(
        path("a/b").compare(&path("a.b")),
        Precedence::Before
    ));
    assert!(matches!(path("a").compare(&path("a/b")), Precedence::Before));
    assert!(matches!(path("b").compare(&path("a/b")), Precedence::After));
    assert!(matches!(path("a").compare(&path("a")), Precedence::Same));
    let mut map = OrderedMap::new();
    for name in ["b", "a.b", "a/b", "a"] {
        map.insert(path(name), name.len());
    }
    map.insert(path("b"), 7);
    let names = (0..map.len())
        .map(|i| map.key_at(i).as_unix_str())
        .collect::<Vec<_>>();
    assert_eq!(names, ["a", "a/b", "a.b", "b"]);
    assert_eq!(map.get(&path("b")), Some(&7));
    assert_eq!(map.remove(&path("a")), Some(1));
    assert_eq!(map.remove(&path("a")), None);
    assert!(!map.contains_key(&path("a")));
    assert_eq!(map.len(), 3);
}

#[test]
fn filters_read_lists_of_extensions() {
    let filter = LineCountFilter::new(" .RS,\tmd ,, ..toml,", "lock");
    for name in ["a.rs", "a.Rs", "a.md", "Cargo.toml"] {
        assert!(filter.includes(&path(name)), "{name}");
    }
    for name in ["a.lock", "a", "a.c", "rs", ".rs"] {
        assert!(!filter.includes(&path(name)), "{name}");
    }
    assert!(filter == LineCountFilter::new("md,toml,rs,rs", " LOCK"));
    assert!(filter != LineCountFilter::new("md,toml", "lock"));
    assert!(filter == filter.clone());
    assert!(LineCountFilter::new(" , .,..", "") == LineCountFilter::default());
}

#[test]
fn exclusion_wins_over_inclusion() {
    let filter = LineCountFilter::new("json,rs", "json");
    assert!(!filter.includes(&path("a.json")));
    assert!(filter.includes(&path("a.rs")));
    let only_excluding = LineCountFilter::new("", "json");
    assert!(!only_excluding.includes(&path("a.JSON")));
    assert!(only_excluding.includes(&path("Makefile")));
    assert!(LineCountFilter::default().includes(&path("a.json")));
}

#[test]
fn only_ascii_letters_are_folded() {
    let filter = LineCountFilter::new("\u{c9}x", "");
    assert!(filter.includes(&path("a.\u{c9}X")));
    assert!(!filter.includes(&path("a.\u{e9}x")));
}
