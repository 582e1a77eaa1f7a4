# my_db

A key-value store kept as an append-only text log, served over TCP with a
line-oriented command language (`SET key value`, `GET key`, `DEL key`, `COMPACT`).

- `src/` is the verified library (Verus): the store and its map model
  (`db.rs`, `data_base.rs`), the log format and its replay (`journal.rs`),
  values and their text form (`db_types.rs`), the command parser and its
  execution (`parser.rs`), the session decisions of the server (`server.rs`),
  character classes and string helpers (`text.rs`), and the error type
  (`db_error.rs`).
- `app/` is the program around it: the log file, the TCP server (tokio), the
  error type's `Display` (thiserror), and float formatting.
- `tests/` exercises the library.
