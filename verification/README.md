# commandshelf

The storage rules of the CommandShelf desktop application, verified with Verus.

- `src/` is the library: the rules of the inbox document and its written form, the
  naming, ordering and retention of backups, and the status of the Codex command line.
  `outside.rs` holds what is taken from std, `sha2` and `serde_json` on trust.
- `tests/` runs the library on concrete values.
- `app/` performs the actions that the library asks for: files, the clock, processes.

A job that needs the outside world (`InboxLoad`, `InboxInitialization`, `BackupRun`) is a
value that names its next action; `advance` takes what came back of it.
