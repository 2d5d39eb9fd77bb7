# keel

The storage and query core of a small relational database, verified with Verus.

* `page`, `heap`, `buffer`, `pager`, `vfs`, `faultfs`: slotted pages with checksums, heap
  files, the buffer pool over block files, and a disk that loses power.
* `btree`, `keys`: ordered keys and the B+tree over them.
* `cbuffer`, `ckv`, `cheap`, `clock`, `latch`: the page cache whose pages can be in
  transition, a key-value store and a heap on top of it, the replacement clock and latches.
* `lockmgr`, `mvcc`: lock queues with deadlock detection, snapshots and serializable
  transactions.
* `db`: the catalog, the statement log with sessions, recovery and compaction, tables with
  their indexes, whole statements that define tables and change rows, and the routing,
  planning and running of queries.
* `dbcheck`: an offline check of a data file.
* `text`, `bytes`, `sets`, `types`: numbers as text and bytes, members of sets, column values.

Each public function states in its `ensures` what it returns or changes. Properties that
span several functions are the public proof functions whose names begin with `law_`.

`app/` is the part that touches the outside: the `dbcheck` command, files of the operating
system, chance, threads and floating-point arithmetic. `tests/` runs the library.
