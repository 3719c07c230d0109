# clipboard_ultra

A clipboard history manager whose core is verified with Verus.

The library (`src/`) holds the logic with its contracts and proofs:

- `db/` — the clipboard database as an in-memory value: history items, tag
  rules, boards and their memberships, configuration entries. Recording
  copied text and images (with de-duplication by content hash and the history
  limit), search, tagging, boards and the built-in favorites board, expiry,
  and export/import merging.
- `detect.rs`, `like.rs`, `text.rs` — the built-in tag detectors (JSON, URL,
  bank card Luhn check, identity card check), SQL `LIKE` matching, and the
  text utilities they rest on.
- `monitor.rs` — the watcher's decisions: what is new on the clipboard, what
  pasting puts back, image file names and thumbnail sizes.
- `apps.rs` — parsing `lsappinfo` output, application names, the running
  application list and the excluded-application list.
- `commands.rs` — the settings and list commands with their defaults.
- `laws.rs` — properties that relate several operations, proved.
- `outside.rs` — the calls into `sha2`, `regex`, `serde_json`, `url`,
  `base64` and `std` (the clock is read with `SystemTime::elapsed`, which
  reports a clock before 1970 as an error instead of panicking), with the
  contracts that the library relies on.

History items carry their use count, the time of their last use and the
application they were copied from; the SQLite schema in `app/store.rs`
holds these columns.

The desktop side (`app/`) keeps the database in SQLite, polls the clipboard,
pastes, reads and writes export files, and exposes the commands.
