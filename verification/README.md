# ramus_core

The core of Ramus, a local-first block-outliner journal: a vault of
Markdown files (`journals/YYYY-MM-DD.md`, `pages/<slug>.md`), each a tree
of `- ` blocks indented by two spaces per level.

- `src/` is the library, written in Verus: every function carries its
  contract and is proved against it. It holds the block format (parsing
  and rendering, with both round-trip laws), front matter and titles,
  journal dates and file names, vault paths and listings, link and tag
  extraction, what the SQLite and full-text indexes hold, task rollover,
  settings and their stored form, the rules of Git sync, and which file
  changes the watcher reports and what the session does with them.
- `tests/` runs the library on concrete values.
- `app/` is the shell around it: files, the settings file, SQLite
  (`rusqlite`), full-text search (`tantivy`), Git (`git2`) and the file
  watcher (`notify`). It reads, writes and converts; the library decides.
