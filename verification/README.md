# lsm_kv

A log-structured merge-tree key/value storage engine, written in Rust and
verified with [Verus](https://github.com/verus-lang/verus).

Writes go to a write-ahead log and a MemTable; a full MemTable is flushed to an
immutable, sorted table; tables of similar size are compacted into one. Reads
ask the MemTable first and then the tables, newest first. Snapshots read the
past, batches are written whole or not at all, and a checkpoint is a second
database that shares the first one's files.

## Layout

- `src/` is the engine. It reaches the disk only through the traits `Fs` and
  `File`, and every function in it is verified against its contract.
  - `state` describes a database as a value, and with `layers` holds the laws of
    the engine: what writes, flushes, merges and restarts do to reads and scans.
    `runs` joins them: after any run a database reads as a map would. `db::steps`
    and `db::reopen` say what the calls on a database are in such a run, and what
    a directory gives back that is opened again.
  - `db` is the engine itself; `wal`, `manifest`, `memtable`, `sstable`,
    `compaction`, `scan` and the others are its parts, each with its own laws.
- `app/` is ordinary Rust: the real filesystem, a handle that runs flushes and
  compactions on threads, and the command line.
- `tests/` runs the engine, mostly on a filesystem in memory.

## What is trusted

The contracts of `Fs` and `File` say what the engine expects of a filesystem.
Checksums, hashes and block compression come from other crates; `hash` and `lz4`
say what is assumed of them, and `names` what is assumed of two functions of the
standard library.
