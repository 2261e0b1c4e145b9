# tread, the verified core

The logic of a terminal pager for structured documents, written in Verus:
what its rows are, what a lens does to a log of records, how a fold state is
saved and read back, how a message is wrapped and clipped, how search steps
between matches, and what the terminal backends decide about each answer the
operating system gives them.

Layout:

- `src/sys/`: the terminal seam. `abi` and `layout` are the unix termios
  tables and C layouts with the raw-mode arithmetic; `win_abi`, `win_layout`
  and `console` are the Windows console's modes, records and decisions;
  `browser` is which program opens a link, behind an allowlist.
- `src/json/`: a parsed JSON value, members kept in document order.
- `src/source/`: documents. `jsonrow` is the fold-id and tree-row vocabulary,
  `search` the smartcase matcher and the bounded wrapping sweep, `text` how a
  line of plain text is painted (and a text file's status bar, search sweep
  and line match), `jsonl` a `.jsonl` document without a lens (its rows, outline,
  folds, fold state, landmarks, yanks and table of contents), `jsonl/tree` the
  one walk that lays a record out as tree rows (its row count, the path and the
  text of each row), and `record/`
  the record machinery: `rowmap` (which rows an open record owns), `plan`
  (what a lens does to the rows), `ops` and `lensrow` (the fold keys and the
  row-to-record translation), `body` (a message under its row), `parts` (the
  calls under it), `cache` and `store` (parsed records kept in hand), and
  `source` (a record document's state and its saved fold vocabulary).
- `app/`: the system calls themselves (the unix and Windows backends, the
  signal flags, spawning a link's opener), each handing its answer to the
  library.
- `tests/`: the behaviour, on concrete values.
