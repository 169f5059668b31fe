# slog

Durable, ordered event streams over an object store: atomic conditional
appends, fences, snapshots, forks, retention and read-only followers. On top
of the streams: filesystem volumes and replicated SQLite databases.

## Layout

- `src/` is the library, written and verified with Verus.
  - `kv`, `store`, `reader`, `fork`, `jobs`, `snapshot`, `aggregate`,
    `envelope`, `wire`: the event store over its key layout.
  - `stream`, `branches`, `folds`, `layout`: what the store's operations
    promise together.
  - `upkeep`, `promises`: what every operation keeps, from an empty store on,
    and what holds of several calls together.
  - `fuse`: volumes, checkpoints, replicas, mirrors, and the decisions behind a
    mounted filesystem.
  - `sqlite`: write-ahead log capture, page images, segments, checkpoints and
    restores.
  - `table`, `numbered`, `order`, `text`, `digits`, `stamp`: sorted tables, rows
    by the numbers in their keys, byte strings, times and identifiers.
- `tests/` runs the library on concrete values, with SQLite in memory.
- `app/` is the program around it: the backend's transactions, the bucket, the
  FUSE adapter, the local files, and the `landslidefs` command line.

## How the pieces meet

An `EventStore` works on the records that a transaction has read and keeps a
log of its writes. The program loads those records, runs the operation, sends
the log and commits; where the commit conflicts it starts over on fresh
records, as `after_commit` tells it. Volumes and databases work alike: the
library says what to upload, append, fetch or publish next, and the program
reports what came of it.

Times and identifiers are read in one place each. Every operation that needs
them has a form that takes them as arguments, whose contract is exact.
