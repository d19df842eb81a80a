# store

A transactional store with a machine-checked proof of what it promises: a
write-ahead log in segments, pages of tuples, multi-version rows with snapshot
reads, named sequences, fuzzy checkpoints and crash recovery.

- `src/` is the library. Every function in it has a contract that Verus proves.
  It does no I/O: files are values (`memfile`), and the time is an argument.
- `tests/` runs the library on concrete values.
- `app/` is ordinary Rust around the library: files on disk, locks, the
  background thread, and guards that roll a transaction back when dropped.

## Where to find what

| Modules | What they hold |
| --- | --- |
| `codec`, `tuple`, `operation`, `table`, `text`, `hash` | values as bytes, and back |
| `framing`, `segment`, `wal`, `durable` | the log: frames, segments, batches, what a power cut leaves |
| `page`, `pagebytes`, `header`, `catalog`, `freelist` | the data file |
| `memfile`, `named_memfile` | files in memory, and which of their bytes are durable |
| `clock`, `txn`, `version`, `rows`, `mvcc`, `steps`, `engine` | transactions, versions and visibility |
| `generator` | named sequences |
| `db`, `schema`, `checkpoint`, `upkeep`, `maintenance`, `opening`, `recovery`, `ending` | the database |
| `history`, `crash`, `promise`, `life`, `degraded` | what holds over whole runs, power cuts among them |
| `describe` | a log in words |

## What is trusted

Integers are written and read by `postcard`, and UTF-8 is read by
`std::str::from_utf8`; `codec` states what is relied on. Everything else is
proved.
