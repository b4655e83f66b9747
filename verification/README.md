# sophist

Sophist tracks files by path and by meaning. `watch` embeds a file and
stores it, `abandon` forgets it, `search` ranks the stored files by how close
their embeddings are to a query.

- `src/` is the library, with its contracts proved: which paths can be tracked and
  how each is embedded, by the extension of the file name (`file_types`),
  the JSON store of tracked files, entries as read included (`storage`),
  the SQLite `FILES` table as rows (`sql_accessor`), the search ranking
  (`ranking`), the command decisions and the count prompt
  (`stalker`), what is sent to the embedding services (`embeddor`), and the
  set-up files of the watcher daemon (`setup`). Laws about these operations
  are public proof functions beside them.
- `app/` is the command-line program: file, database and network I/O, the
  floating-point similarity, and the calls to the launch agent.
- `tests/` runs the library on concrete values.
