# jaysondb

A key/value store built on `AmazingHashMap`, an insertion-ordered hash map
that uses open addressing with linear probing and Robin Hood displacement.
The library is written in Verus and its functions are proved against their
contracts.

- `src/hashers.rs`: the DJB2 byte hasher.
- `src/keys.rs`: the `HashKey` trait (integer and string keys) and key hashes.
- `src/slots.rs`: the slot array: Robin Hood placement and backward-shift removal.
- `src/hashmap.rs`: the map: a dense table of entries in insertion order plus the slot array.
- `src/database.rs`: `JaySonDB`, the store, with the path of its backup file.
- `src/command.rs`: the commands of the command line.
- `src/laws.rs`: properties that hold across operations.
- `app/main.rs`: the command-line program: reads commands, and reads and writes
  the backup file as a stream of JSON entries (serde, serde_json).
