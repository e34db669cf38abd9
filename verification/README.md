# pinax

A relational storage engine in the small, with its correctness proved in
Verus: a strict six-type value vocabulary and, on top of it, a checksummed,
copy-on-write B+tree keyed by `i64`, behind an LRU buffer pool.

## What is proved

- Every operation on the tree is exact: `get`, `insert`, `update`, `delete`
  and `scan` say what they return and what the tree holds afterwards, for
  every set of pages that makes up a tree (`src/database.rs`,
  `src/btree.rs`, `src/btree/tree.rs`).
- Every row that a payload can hold is stored, whatever the sizes of the rows
  around it: a full leaf page is split by number, by bytes, or in three.
- Every write copies the path from the leaf to the root, under new page ids.
- What is written is what is read back, other keys are left alone, and a scan
  is sorted and complete (`src/guarantees.rs`).
- A page whose checksum does not match, or whose type is not the one that its
  place calls for, is reported as such (`src/database.rs`,
  `src/btree/cursor.rs`).
- A commit never writes a byte of the committed state. Wherever a crash
  interrupts it, and whatever part of the writes between two syncs it leaves,
  the old state or the new one is in force, with all its rows, as long as a
  meta slot that was not written whole fails its checksum. A commit that is
  reported as failed leaves the database in use with the old state, whether
  or not the new one is what the file is opened with
  (`src/durability.rs`).

## How it is laid out

- `src/` is the verified library. It performs no I/O: an operation hands out
  the actions to perform on the file and asks for the pages that it needs.
  - `lexis` holds types, values, schema and expressions.
  - `codec`, `page`, `row` hold the byte formats.
  - `disk` says what actions do to a file; `pager` is the committed state in
    the two meta slots; `buffer_pool` is the page cache.
  - `btree` is the tree: page layout, meaning, overflow chains, mutation and
    the cursors that read it one page at a time.
  - `database` puts it together.
- `tests/` runs the library over files in memory.
- `app/` runs it over real files.

## What is trusted

The `xxh3_64` hash is a function of the bytes, `String::from_utf8` decodes
exactly valid UTF-8, and a `CompactString` holds the characters that it was
made of.
