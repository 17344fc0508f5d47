//! Counts as rows of a table, to be kept from one session to the next.

use crate::candidate::{FileFingerprint, LineCountCandidate};
use crate::counts::FileLineCount;
use crate::mtime::{MTime, NANOS_PER_SECOND};
use crate::ordered_map::OrderedMap;
use crate::rel_path;
use crate::rel_path::RelPath;
use vstd::prelude::*;

verus! {

/// A count that is kept, and the state of the file that it belongs to.
#[derive(Clone, Copy, Debug, PartialEq, Eq, Structural)]
pub struct CachedLineCount {
    pub fingerprint: FileFingerprint,
    pub count: FileLineCount,
}

/// Kept counts by path.
pub type Kept = Map<Seq<char>, CachedLineCount>;

/// The row of a file.
#[derive(Debug)]
pub struct LineCountRow {
    pub path: String,
    pub mtime_seconds: i64,
    pub mtime_nanos: u32,
    pub size: u64,
    pub inode: u64,
    pub line_count: Option<u64>,
    pub is_binary: bool,
}

/// What stands in a row besides the path.
pub struct RowValue {
    pub mtime_seconds: i64,
    pub mtime_nanos: u32,
    pub size: u64,
    pub inode: u64,
    pub line_count: Option<u64>,
    pub is_binary: bool,
}

/// The rows of one worktree by path.
pub type Table = Map<Seq<char>, RowValue>;

/// Why counts cannot be kept or read back.
#[derive(Clone, Copy, Debug, PartialEq, Eq, Structural)]
pub enum StoreError {
    /// A row's path is no relative path.
    InvalidPath,
    /// A row has a time of modification before the epoch.
    NegativeMtime,
    /// The row of a text file has no count.
    MissingCount,
    /// A file was modified before the epoch.
    MtimeBeforeEpoch,
    /// The counts of the worktree have not been loaded.
    NotLoaded,
    /// The transaction that was to change the table has not been committed.
    NotCommitted,
}

pub open spec fn row_value(row: LineCountRow) -> RowValue {
    RowValue {
        mtime_seconds: row.mtime_seconds,
        mtime_nanos: row.mtime_nanos,
        size: row.size,
        inode: row.inode,
        line_count: row.line_count,
        is_binary: row.is_binary,
    }
}

/// What is wrong with a row.
pub open spec fn row_error(row: LineCountRow) -> Option<StoreError> {
    if !rel_path::is_normal(row.path@) {
        Some(StoreError::InvalidPath)
    } else if row.mtime_seconds < 0 {
        Some(StoreError::NegativeMtime)
    } else if !row.is_binary && row.line_count is None {
        Some(StoreError::MissingCount)
    } else {
        None
    }
}

/// The time in a row is not too late to be represented.
pub open spec fn time_fits(row: LineCountRow) -> bool {
    row.mtime_seconds + row.mtime_nanos / NANOS_PER_SECOND <= i64::MAX
}

/// The count in a row.
pub open spec fn kept_in(value: RowValue) -> CachedLineCount {
    CachedLineCount {
        fingerprint: FileFingerprint {
            mtime: MTime::at(
                value.mtime_seconds + value.mtime_nanos / NANOS_PER_SECOND,
                (value.mtime_nanos % NANOS_PER_SECOND) as int,
            ),
            size: value.size,
            inode: value.inode,
        },
        count: if value.is_binary {
            FileLineCount::Binary
        } else {
            FileLineCount::Text(value.line_count->0)
        },
    }
}

/// What is wrong with the first row that has something wrong with it.
pub open spec fn first_error(rows: Seq<LineCountRow>) -> Option<StoreError>
    decreases rows.len(),
{
    if rows.len() == 0 {
        None
    } else {
        match first_error(rows.drop_last()) {
            Some(error) => Some(error),
            None => row_error(rows.last()),
        }
    }
}

/// As far as the rows are in order, their times can be represented.
pub open spec fn times_fit(rows: Seq<LineCountRow>) -> bool {
    forall|i: int|
        #![trigger rows[i]]
        0 <= i < rows.len() && first_error(rows.take(i + 1)) is None ==> time_fits(rows[i])
}

/// The counts in rows. Where a path occurs more than once, its last row counts.
pub open spec fn kept_in_rows(rows: Seq<LineCountRow>) -> Kept
    decreases rows.len(),
{
    if rows.len() == 0 {
        Map::empty()
    } else {
        kept_in_rows(rows.drop_last()).insert(rows.last().path@, kept_in(row_value(rows.last())))
    }
}

/// The first error of some rows is that of all of them.
pub proof fn lemma_first_error_stays(rows: Seq<LineCountRow>, i: int)
    requires
        0 <= i <= rows.len(),
        first_error(rows.take(i)) is Some,
    ensures
        first_error(rows) == first_error(rows.take(i)),
    decreases rows.len() - i,
{
    if i < rows.len() {
        assert(rows.take(i + 1).drop_last() =~= rows.take(i));
        lemma_first_error_stays(rows, i + 1);
    } else {
        assert(rows.take(i) =~= rows);
    }
}

/// Whether the times in rows can be represented, as far as the rows are in
/// order. Only then can the counts be read back.
pub fn rows_fit(rows: &Vec<LineCountRow>) -> (fit: bool)
    ensures
        fit == times_fit(rows@),
{
    assert(rows@.take(0) =~= Seq::<LineCountRow>::empty());
    for i in 0..rows.len()
        invariant
            first_error(rows@.take(i as int)) is None,
            forall|k: int|
                #![trigger rows@[k]]
                0 <= k < i ==> time_fits(rows@[k]),
    {
        let row = &rows[i];
        proof {
            assert(rows@.take(i + 1).drop_last() =~= rows@.take(i as int));
            assert(rows@.take(i + 1).last() == *row);
        }
        if RelPath::from_unix_str(row.path.as_str()).is_err() || row.mtime_seconds < 0 || (
        !row.is_binary && row.line_count.is_none()) {
            assert forall|k: int|
                #![trigger rows@[k]]
                0 <= k < rows@.len() && first_error(rows@.take(k + 1)) is None implies time_fits(
                rows@[k],
            ) by {
                if k >= i {
                    lemma_first_error_stays(rows@.take(k + 1), i + 1);
                    assert(rows@.take(k + 1).take(i + 1) =~= rows@.take(i + 1));
                }
            }
            return true;
        }
        if row.mtime_seconds as u64 + (row.mtime_nanos / NANOS_PER_SECOND) as u64
            > i64::MAX as u64 {
            return false;
        }
    }
    true
}

/// Reads back the counts in rows.
pub fn read_rows(rows: &Vec<LineCountRow>) -> (read: Result<
    OrderedMap<RelPath, CachedLineCount>,
    StoreError,
>)
    requires
        times_fit(rows@),
    ensures
        match read {
            Ok(kept) => first_error(rows@) is None && kept@ == kept_in_rows(rows@),
            Err(error) => first_error(rows@) == Some(error),
        },
{
    let mut kept: OrderedMap<RelPath, CachedLineCount> = OrderedMap::new();
    assert(rows@.take(0) =~= Seq::<LineCountRow>::empty());
    for i in 0..rows.len()
        invariant
            times_fit(rows@),
            first_error(rows@.take(i as int)) is None,
            kept@ == kept_in_rows(rows@.take(i as int)),
    {
        let row = &rows[i];
        proof {
            assert(rows@.take(i + 1).drop_last() =~= rows@.take(i as int));
            assert(rows@.take(i + 1).last() == *row);
            if first_error(rows@.take(i + 1)) is Some {
                lemma_first_error_stays(rows@, i + 1);
            }
        }
        let path = match RelPath::from_unix_str(row.path.as_str()) {
            Ok(path) => path,
            Err(_) => {
                return Err(StoreError::InvalidPath);
            },
        };
        if row.mtime_seconds < 0 {
            return Err(StoreError::NegativeMtime);
        }
        let count = if row.is_binary {
            FileLineCount::Binary
        } else {
            match row.line_count {
                Some(lines) => FileLineCount::Text(lines),
                None => {
                    return Err(StoreError::MissingCount);
                },
            }
        };
        assert(time_fits(rows@[i as int]));
        let mtime = MTime::from_seconds_and_nanos(row.mtime_seconds as u64, row.mtime_nanos);
        kept.insert(
            path,
            CachedLineCount {
                fingerprint: FileFingerprint { mtime, size: row.size, inode: row.inode },
                count,
            },
        );
    }
    assert(rows@.take(rows@.len() as int) =~= rows@);
    Ok(kept)
}

/// What a count puts into a row.
pub open spec fn value_of(kept: CachedLineCount) -> RowValue {
    RowValue {
        mtime_seconds: kept.fingerprint.mtime.seconds() as i64,
        mtime_nanos: kept.fingerprint.mtime.nanos() as u32,
        size: kept.fingerprint.size,
        inode: kept.fingerprint.inode,
        line_count: match kept.count {
            FileLineCount::Text(lines) => Some(lines),
            FileLineCount::Binary => None,
        },
        is_binary: kept.count is Binary,
    }
}

/// A candidate and its count.
pub type Counted = (LineCountCandidate, FileLineCount);

/// The paths and rows that counts put into the table: a candidate without a
/// fingerprint puts nothing there.
pub open spec fn rows_of(counts: Seq<Counted>) -> Seq<(Seq<char>, RowValue)>
    decreases counts.len(),
{
    if counts.len() == 0 {
        Seq::empty()
    } else {
        let front = rows_of(counts.drop_last());
        let candidate = counts.last().0;
        match candidate.fingerprint {
            Some(fingerprint) => front.push(
                (
                    candidate.path@,
                    value_of(CachedLineCount { fingerprint, count: counts.last().1 }),
                ),
            ),
            None => front,
        }
    }
}

/// Every time of modification can be persisted.
pub open spec fn times_persist(counts: Seq<Counted>) -> bool {
    forall|i: int|
        0 <= i < counts.len() ==> ((#[trigger] counts[i]).0.fingerprint matches Some(fingerprint)
            ==> fingerprint.mtime.seconds() >= 0)
}

/// Whether every time of modification can be persisted.
pub fn can_persist(counts: &[Counted]) -> (persist: bool)
    ensures
        persist == times_persist(counts@),
{
    for i in 0..counts.len()
        invariant
            forall|k: int|
                0 <= k < i ==> ((#[trigger] counts@[k]).0.fingerprint matches Some(fingerprint)
                    ==> fingerprint.mtime.seconds() >= 0),
    {
        if let Some(fingerprint) = counts[i].0.fingerprint {
            if fingerprint.mtime.to_seconds_and_nanos_for_persistence().is_none() {
                assert(counts@[i as int].0.fingerprint == Some(fingerprint));
                return false;
            }
        }
    }
    true
}

/// The path of each row and what stands beside it.
pub open spec fn listed(rows: Seq<LineCountRow>) -> Seq<(Seq<char>, RowValue)> {
    Seq::new(rows.len(), |i: int| (rows[i].path@, row_value(rows[i])))
}

/// The rows that keep counts. They replace what the table holds at their paths.
pub fn rows_for(counts: &[Counted]) -> (rows: Result<Vec<LineCountRow>, StoreError>)
    ensures
        rows is Ok <==> times_persist(counts@),
        rows is Ok ==> times_normal(counts@),
        match rows {
            Ok(rows) => listed(rows@) == rows_of(counts@) && forall|i: int|
                0 <= i < rows@.len() ==> row_error(#[trigger] rows@[i]) is None && time_fits(
                    rows@[i],
                ),
            Err(error) => error == StoreError::MtimeBeforeEpoch,
        },
{
    let mut rows: Vec<LineCountRow> = Vec::new();
    assert(counts@.take(0) =~= Seq::<Counted>::empty());
    assert(listed(rows@) =~= Seq::<(Seq<char>, RowValue)>::empty());
    for i in 0..counts.len()
        invariant
            listed(rows@) == rows_of(counts@.take(i as int)),
            forall|k: int|
                0 <= k < rows@.len() ==> row_error(#[trigger] rows@[k]) is None && time_fits(
                    rows@[k],
                ),
            forall|k: int|
                0 <= k < i ==> ((#[trigger] counts@[k]).0.fingerprint matches Some(fingerprint)
                    ==> fingerprint.mtime.seconds() >= 0 && fingerprint.mtime.normal()),
    {
        let candidate = &counts[i].0;
        let count = counts[i].1;
        let ghost before = rows@;
        proof {
            assert(counts@.take(i + 1).drop_last() =~= counts@.take(i as int));
            assert(counts@.take(i + 1).last() == counts@[i as int]);
        }
        if let Some(fingerprint) = candidate.fingerprint {
            let (mtime_seconds, mtime_nanos) = match fingerprint.mtime.to_seconds_and_nanos_for_persistence() {
                Some(parts) => parts,
                None => {
                    return Err(StoreError::MtimeBeforeEpoch);
                },
            };
            let row = LineCountRow {
                path: candidate.path.as_unix_str().to_owned(),
                mtime_seconds: mtime_seconds as i64,
                mtime_nanos,
                size: fingerprint.size,
                inode: fingerprint.inode,
                line_count: match count {
                    FileLineCount::Text(lines) => Some(lines),
                    FileLineCount::Binary => None,
                },
                is_binary: matches!(count, FileLineCount::Binary),
            };
            rows.push(row);
            proof {
                let kept = CachedLineCount { fingerprint, count };
                assert(row_value(row) == value_of(kept));
                assert(listed(rows@) =~= listed(before).push((candidate.path@, value_of(kept))));
            }
        }
    }
    assert(counts@.take(counts@.len() as int) =~= counts@);
    Ok(rows)
}

/// The table when rows have been put into it, one after another, each in place
/// of what was at its path.
pub open spec fn upserted(table: Table, rows: Seq<(Seq<char>, RowValue)>) -> Table
    decreases rows.len(),
{
    if rows.len() == 0 {
        table
    } else {
        upserted(table, rows.drop_last()).insert(rows.last().0, rows.last().1)
    }
}

/// The counts that a table keeps.
pub open spec fn kept_in_table(table: Table) -> Kept {
    Map::new(|path: Seq<char>| table.contains_key(path), |path: Seq<char>| kept_in(table[path]))
}

/// `rows` lists the table: each of its rows once, in any order.
pub open spec fn lists(rows: Seq<LineCountRow>, table: Table) -> bool {
    &&& forall|i: int|
        0 <= i < rows.len() ==> table.contains_key((#[trigger] rows[i]).path@)
            && table[rows[i].path@] == row_value(rows[i])
    &&& forall|path: Seq<char>| #[trigger]
        table.contains_key(path) ==> exists|i: int|
            0 <= i < rows.len() && (#[trigger] rows[i]).path@ == path
}

/// Reading a table back gives the counts that it keeps, in whatever order its
/// rows come.
pub proof fn law_reading_a_table(rows: Seq<LineCountRow>, table: Table)
    requires
        lists(rows, table),
    ensures
        kept_in_rows(rows) == kept_in_table(table),
{
    lemma_kept_in_rows(rows, table);
    let read = kept_in_rows(rows);
    assert forall|path: Seq<char>| read.contains_key(path) == table.contains_key(path) by {
        if table.contains_key(path) {
            let i = choose|i: int| 0 <= i < rows.len() && (#[trigger] rows[i]).path@ == path;
            assert(read.contains_key(rows[i].path@));
        }
    }
    assert(read =~= kept_in_table(table));
}

proof fn lemma_kept_in_rows(rows: Seq<LineCountRow>, table: Table)
    requires
        forall|i: int|
            0 <= i < rows.len() ==> table.contains_key((#[trigger] rows[i]).path@)
                && table[rows[i].path@] == row_value(rows[i]),
    ensures
        forall|i: int|
            0 <= i < rows.len() ==> kept_in_rows(rows).contains_key((#[trigger] rows[i]).path@),
        forall|path: Seq<char>| #[trigger]
            kept_in_rows(rows).contains_key(path) ==> table.contains_key(path) && kept_in_rows(
                rows,
            )[path] == kept_in(table[path]),
    decreases rows.len(),
{
    if rows.len() > 0 {
        let front = rows.drop_last();
        assert forall|i: int| 0 <= i < front.len() implies table.contains_key(
            (#[trigger] front[i]).path@,
        ) && table[front[i].path@] == row_value(front[i]) by {
            assert(rows[i] == front[i]);
        }
        lemma_kept_in_rows(front, table);
        let last = rows.len() - 1;
        assert(table.contains_key(rows[last].path@));
        assert forall|i: int| 0 <= i < rows.len() implies kept_in_rows(rows).contains_key(
            (#[trigger] rows[i]).path@,
        ) by {
            if i < last {
                assert(front[i] == rows[i]);
            }
        }
    }
}

/// The counts that are kept once more of them have come, each in place of what
/// was at its path.
pub open spec fn remembered(kept: Kept, counts: Seq<Counted>) -> Kept
    decreases counts.len(),
{
    if counts.len() == 0 {
        kept
    } else {
        let front = remembered(kept, counts.drop_last());
        match counts.last().0.fingerprint {
            Some(fingerprint) => front.insert(
                counts.last().0.path@,
                CachedLineCount { fingerprint, count: counts.last().1 },
            ),
            None => front,
        }
    }
}

/// The times of modification are valid.
pub open spec fn times_normal(counts: Seq<Counted>) -> bool {
    forall|i: int|
        0 <= i < counts.len() ==> ((#[trigger] counts[i]).0.fingerprint matches Some(fingerprint)
            ==> fingerprint.mtime.normal())
}

/// A row gives back the count that was put into it.
pub proof fn law_row_round_trip(kept: CachedLineCount)
    requires
        kept.fingerprint.mtime.normal(),
        kept.fingerprint.mtime.seconds() >= 0,
    ensures
        kept_in(value_of(kept)) == kept,
{
    kept.fingerprint.mtime.lemma_determined();
}

/// What is read from the table after counts have been put into it is what was
/// kept before, with these counts: it does not matter whether they are
/// remembered or read back.
pub proof fn law_stored_counts_are_read_back(table: Table, counts: Seq<Counted>)
    requires
        times_persist(counts),
        times_normal(counts),
    ensures
        kept_in_table(upserted(table, rows_of(counts))) == remembered(
            kept_in_table(table),
            counts,
        ),
    decreases counts.len(),
{
    if counts.len() > 0 {
        let front = counts.drop_last();
        assert forall|i: int| 0 <= i < front.len() implies ((
        #[trigger] front[i]).0.fingerprint matches Some(fingerprint)
            ==> fingerprint.mtime.seconds() >= 0 && fingerprint.mtime.normal()) by {
            assert(counts[i] == front[i]);
        }
        law_stored_counts_are_read_back(table, front);
        let last = counts[counts.len() - 1];
        match last.0.fingerprint {
            Some(fingerprint) => {
                let kept = CachedLineCount { fingerprint, count: last.1 };
                law_row_round_trip(kept);
                let before = upserted(table, rows_of(front));
                assert(rows_of(counts).drop_last() =~= rows_of(front));
                assert(upserted(table, rows_of(counts)) == before.insert(
                    last.0.path@,
                    value_of(kept),
                ));
                assert(kept_in_table(before.insert(last.0.path@, value_of(kept)))
                    =~= kept_in_table(before).insert(last.0.path@, kept));
            },
            None => {},
        }
    } else {
        assert(upserted(table, rows_of(counts)) =~= table);
    }
}

/// Deleting rows from the table forgets their counts and no others.
pub proof fn law_deleted_rows_are_forgotten(table: Table, paths: Set<Seq<char>>)
    ensures
        kept_in_table(table.remove_keys(paths)) == kept_in_table(table).remove_keys(paths),
{
    assert(kept_in_table(table.remove_keys(paths)) =~= kept_in_table(table).remove_keys(paths));
}

} // verus!
