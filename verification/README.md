# fmf_core

The core of a file search over NTFS volumes: an index of every file and
directory of a volume, built from the master file table and kept up to date from
the change journal, and the engine that answers queries over several volumes.

`src/` is a library whose functions carry contracts that Verus proves. It takes
and gives plain values and does no input or output.

- `ondisk`: the bytes of a volume. Update sequences, file records, attributes,
  attribute lists, mapping pairs.
- `index`: the index of one volume. Columns, building, lookup, changes, sorting,
  compaction, snapshots.
- `engine`: the decisions of the engine. The worker of a volume as a machine of
  states and events, the merge of hits, pages of results.
- `mft`, `metrics`, `diag`, `messages`: what a scan takes of a record, what is
  measured, the log format and the ring of recent errors, errors in words.
- `bytes`, `dates`, `order`, `text`, `wtf8`: what the others build on.
- `stop`: flags by which one thread asks another to stop.
- `clock`, `hashed`, `paths`: calls into the standard library and `rustc_hash`
  whose contracts are trusted; a few more stand next to their only users.

`app/` is ordinary Rust around the library: locks, threads, files, the log and
the operating system. `tests/` runs the library on concrete values.
