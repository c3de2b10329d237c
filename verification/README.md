# rune

The verified core of Rune, an encrypted, local-first notes workspace.

- `src/` is the library, written in Verus: the vault file format and its
  unlocking (real and duress passwords), the sealed data files, note
  search, backlinks and the link graph, the calendar scan, the kanban
  board, time tracking, whiteboard and attachment indexes, the `.vault`
  export format and the import merge, DOCX paragraph building, backup
  naming and pruning, and the decisions behind atomic writes and the vault
  lock. Calls into argon2, ring, rand, base64, uuid and rusqlite stand
  behind small trusted wrappers whose contracts are documented where they
  are declared.
- `tests/` runs the library with the real outside crates linked.
- `app/` is the application around it: the session state, file and
  directory I/O, serde copies of the library's types, and one function per
  command of the window layer.
