# MagnumDB

An embedded SQL and key-value database engine: a B+ tree over 4 KB pages behind an LRU
buffer pool, a write-ahead log with CRC32-checked frames, a small SQL dialect with
transactions and secondary indexes, and a PostgreSQL wire-protocol server.

The engine is written in Verus: every function of the library carries a contract that
Verus proves, and the few calls into other crates (`crc32fast`, `lru`, and a handful of
`std` string conversions) sit behind small trusted wrappers whose contracts state what
those crates document.

## Layout

- `src/` — the verified library.
  - `storage/` — the page store (`pager`), the buffer pool (`buffer_pool`, over
    `lru::LruCache`), the node codec (`btree`), key order and leaf records (`ordered`), the
    B+ tree (`tree`), and `Database`, which puts the tree behind the log.
  - `wal.rs` — log frames, their encoding, and recovery: committed transactions are
    replayed, uncommitted ones and a torn tail are ignored.
  - `sql/` — the parser, table descriptions and cell checks (`types`, `values`), the row
    codec (`rows`), the catalog, the write buffer of a transaction, the Volcano operators,
    the optimizer, and the executor.
  - `network/` — the PostgreSQL message codec and session state (`pgwire`) and the framing
    of the server's own protocol (`server`).
  - `config.rs`, `cli.rs`, `codec.rs`, `text.rs` — configuration, the command line's
    commands, byte codecs, and text helpers.
- `app/` — the `magnum` program: files, the TCP server and shell, the command line
  (clap), the configuration file (TOML), the catalog's JSON form (serde), and the parts of
  queries that compute with floating point (ordering numeric cells, `SUM`, `AVG`, range
  conditions, `HAVING`).
- `tests/` — tests of the library.

## The database and its files

`Database` works on bytes: it opens from the data file's image and the log's bytes, hands
out the log frames it appends (and says when the log or the store should be synced), and
gives the store's image on close. The program (`app/files.rs`) reads and writes the files.

## Statements

`Executor` runs statements step by step: transactions (`begin`, `commit`, `rollback`),
DDL (`create_schema`, `table_definition` and `create_table`, `create_index`, `drop_table`),
DML (`insert`, `update`, `delete`) and queries (`select`, `select_join`, `show_*`). A
`SELECT` with `ORDER BY`, and the aggregate queries, hand their rows back to the caller,
which orders or aggregates them and finishes the result with `finish_select` or
`format_table_output`.
