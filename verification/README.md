# pebble-engine

A key-value storage engine in Verus: a write-ahead log, a sorted memtable, immutable sorted tables with
sparse indexes and Bloom filters, and compaction.

    put(key, value)   write; the record is forced to the log first
    get(key)          memtable, then tables from the newest to the oldest
    delete(key)       write a tombstone
    scan(start, end)  range query, merged over all layers

## Layout

- `src/` is the verified library. It performs no I/O. An operation that needs a file is a small state
  machine: it says which bytes it wants, or which bytes are to be written, and goes on with the answer.
- `app/` runs those state machines over a directory: files, clock, threads, the sizing of filters, the
  HTTP endpoint and the benchmarks.
- `tests/` runs the library over files that are kept in memory.

## What is proved

`src/store.rs` models the store as a stack of layers and states what the operations keep:

- a write is read back, and changes no other key;
- lookups and scans give exactly what the layers hold, whatever indexes and filters skip, and a lookup
  reads at most sixteen records of a table;
- flushes and compactions keep what the store holds.

`src/recovery.rs` states that after any run of writes, flushes, compactions and restarts a store that is
opened again holds what the writes say, wherever the run was stopped: in a log write, in a flush, or in a
compaction, while the table file is written or after. A file whose writing was cut short is taken to be
one that cannot be opened, and is left out. Tables are ordered by the numbers in their names. A
compaction keeps these in the order of the tables' age: before a partial one writes its table, the newer
tables are renamed to greater numbers; and merged files are removed from the oldest on.

Below it, `src/wal.rs`, `src/layout.rs`, `src/search.rs`, `src/bloom.rs` and `src/names.rs` state the laws
of their formats: what is written is read back, torn records are rejected, filters rule out no stored
key.

## What is trusted

- `crc32fast::hash` returns the CRC-32 checksum of its argument.
- `std::io::Error` is carried through, and its text is shown.

## File format

    [ data records ][ Bloom filter ][ sparse index ][ index offset: 8 ][ filter offset: 8 ]

    data record:   key length (4) | value length (4) | operation (1) | key | value
    index entry:   key length (4) | key | file offset (8)
    Bloom filter:  number of bits (8) | number of hash functions (1) | bits
    log record:    CRC-32 of the rest (4) | data record

Numbers are little-endian.
