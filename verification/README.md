# bitcask

A log-structured key-value store in the style of Bitcask. Every write is
appended to the active data file as a row
(`crc | timestamp | key_size | value_size | key | value`, integers
big-endian); an in-memory key directory remembers, for each live key, the
data file, offset and size of its latest value. Deleting a key appends a row
with timestamp zero. Opening a store replays its data files, oldest first,
to rebuild the key directory.

Layout:

- `src/` is the verified library. `models/disk_row.rs` holds the row and
  hint-entry formats, `models/crc.rs` the row checksum, `models/encoding.rs`
  the big-endian integer codec, `models/key_dir.rs` the key directory,
  `models/segments.rs` data-file naming and selection, and
  `models/handler.rs` the store's decisions: replaying data files, and the
  handler whose operations say which bytes to write where and keep the key
  directory in step with the data files.
- `app/` is the program around it: it lists and reads the data directory,
  creates data files, reads the clock, writes the rows that the library
  decides on and reads values back.
- `tests/` runs the library on concrete inputs.

With the option `hintfile_checksum_strict`, opening a store checks the
checksum of every row that stores a value and leaves out rows whose checksum
does not hold. Rows that delete a key are always taken: their checksum is
computed before their timestamp is set to zero.

Merging and compacting rewrites the values whose latest row lies in an
older data file into one new data file, with a hint file beside it that
gives each row's timestamp, sizes, value offset and key; the older files are
then removed. `models/merge.rs` holds the bytes such a merge writes and what
reading them back gives.
