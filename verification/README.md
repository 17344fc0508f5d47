# line_counts

Line counts of the files in a set of worktrees, with the counts of directories
added up from those of the files below them.

- `src/` is the library, verified with [Verus](https://github.com/verus-lang/verus).
  - `cache` holds what is known of every entry and answers how many lines a file
    or directory has; `filter` picks the files that are counted.
  - `worker` keeps the cache up to date. It turns changes of worktrees into
    requests (`update`, `queue`), makes up batches of them (`schedule`), and takes
    in the results. `progress` says what each of these steps does.
  - `store` and `rows` keep counts in the rows of a database from one session to
    the next. `transaction` says which statement of a transaction comes next.
  - `counting` decides, step by step, whether a count can be trusted: a file that
    changes while it is being counted has none.
  - `ordered_map`, `order`, `rel_path`, `text`, `mtime`, `worktree` and `sum` are
    what the rest is built on.
  - `cache_laws`, `worker_laws`, `follow_laws`, `store_laws` and `filter_laws`
    state and prove what holds of all of this together.
- `app/` is the part that does the work on the outside: the statements that are
  run on the database, and the reading of files.
- `tests/` runs the library on concrete values.

All that the library takes on trust is in `clock`: the system's clock, of which
nothing is claimed.
