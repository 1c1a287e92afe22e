# skvs

A small in-memory SQL and key-value engine, written in Rust and proved with Verus.

Each database holds SQL tables and raw key-value tables. SQL covers table, index, view and
trigger definitions, INSERT, UPDATE, DELETE, SELECT with joins, grouping and ordering,
constraints, transactions, full-text search, and JSON and string
functions.

## Layout

- `src/` is the engine. Every function states in its contract what it returns or changes, over
  the views of the state, of rows and of the syntax tree.
  - `schema`, `row`, `json`, `decimal`, `double`, `text`, `codec`: values and their text forms.
  - `ast`, `sql/parser`: statements, read by the `sqlparser` crate.
  - `expr`, `sql/select`, `sql/dml`, `sql/ddl`, `sql/mod`: what statements mean and do.
  - `state`, `store`, `catalog`, `assoc`, `index`, `fts`, `constraint`, `triggers`, `view`,
    `transaction`, `wal`, `replication`: the state and its parts.
  - `covering`, `rollback`, `apart`, `integrity`, `relational`, `searching`, `effects`,
    `snapshot`, `sparing`, `parameters`, `documents`, `exact`, `overflow`: laws that span the
    engine, each a public proof function.
- `app/` is the native module for Node.js around the engine: configuration, files, the log,
  replication over UDP.
- `tests/` runs the engine on concrete values.

## What is trusted

Calls into `sqlparser`, `serde_json`, `regex`, `indexmap`, `dashmap`, `hex`, `base64` and a few
functions of std stand behind small wrappers whose contracts are believed. Each wrapper's
comment says what it claims of the function it calls.
