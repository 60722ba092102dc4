# chloedb

An append-only key-value store. Every `set` and `remove` appends a framed
binary record to the active log file; an in-memory index maps each live key
to the location of its latest record and is rebuilt by reading the log files
from oldest to newest. When a log file would pass its byte limit a new one is
started (a first value too large for a log file is refused), and when there are
too many log files the live records are compacted into the first log file.

Record frame: `len: u32` then the record `crc: u32, timestamp: i64, op: u8,
key_len: u32, val_len: u32, key, val`, little-endian, where `crc` is the
CRC-32 of the bytes after it.

Layout:

- `src/` — the verified library (Verus):
  - `codec.rs` little-endian integers;
  - `crc.rs` the checksum, from `crc32fast`;
  - `binarylog.rs` the record format: writing, reading back and checking;
  - `index.rs` the key index;
  - `file.rs` log file names and the size threshold;
  - `db.rs` the store's state and decisions, and reading a log file back;
  - `error.rs` the errors.
- `app/` — the command-line program, the clock (`chrono`) and all file work: it performs what the
  library's decisions call for.
- `tests/` — tests of the library.
