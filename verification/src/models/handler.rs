//! The store's decisions: open modes, the errors that operations report,
//! rebuilding the key directory from data files, and the handler whose
//! operations say what to write where and keep the key directory in step
//! with the data files.

use vstd::prelude::*;
use vstd::std_specs::ops::BitOrSpec;

use crate::models::byte_buf::{bytes_as_slice, bytes_copy_from_slice, bytes_view};
use crate::models::disk_row::{
    checksum_holds, fresh_row, lemma_row_roundtrip, parse_row, BitCaskDiskRow, DiskRowView,
};
use crate::models::replay::{
    apply_row_value, lemma_checked_replay_files_agrees, lemma_checksums_hold_after_append,
    lemma_replay_after_append, lemma_replay_files_locations, log_checksums_hold,
    lemma_replay_values_after_append, lemma_value_at_row_end, locations_hold, log_well_formed,
    replay_files, replay_files_values, replay_log, replay_log_values,
};
use crate::models::encoding::{get_u64, put_slice, put_u128, put_u32, put_u64};
use crate::models::in_memory::{BitCaskInMemoryValue, InMemoryView};
use crate::models::key_dir::{bytes_equal, KeyDirectory};
use crate::models::merge::{
    append_merge_entry, is_first_index, keys_distinct, lemma_first_index_unique,
    lemma_merge_replay, lemma_merge_values_of_distinct, lemma_merged_replay, locations_match,
    merge_directory, merge_hints, merge_rows, merge_values, stored_value,
};
use crate::models::segments::{ActiveDataFile, DataFile};

verus! {

/// Marks a handler that is open.
pub struct BitCaskHandlerOpen;

/// Marks a handler that is closed.
pub struct BitCaskHandlerClosed;

/// A set of access modes, one bit each.
#[derive(Debug, Clone, Copy)]
pub struct BitCaskHandlerOpenMode(pub u8);

impl core::ops::BitOr for BitCaskHandlerOpenMode {
    type Output = Self;

    fn bitor(self, rhs: Self) -> (r: Self)
        ensures
            r.spec_contains(self),
            r.spec_contains(rhs),
            forall|m: BitCaskHandlerOpenMode|
                m.spec_contains(self) && m.spec_contains(rhs) ==> #[trigger] m.spec_contains(r),
    {
        let r = BitCaskHandlerOpenMode(self.0 | rhs.0);
        proof {
            let (x, y) = (self.0, rhs.0);
            assert((x | y) & x == x) by (bit_vector);
            assert((x | y) & y == y) by (bit_vector);
            assert forall|m: BitCaskHandlerOpenMode|
                m.spec_contains(self) && m.spec_contains(rhs) implies #[trigger] m.spec_contains(
                r,
            ) by {
                let z = m.0;
                assert(z & (x | y) == (x | y)) by (bit_vector)
                    requires
                        z & x == x,
                        z & y == y,
                ;
            }
        }
        r
    }
}

impl vstd::std_specs::ops::BitOrSpecImpl for BitCaskHandlerOpenMode {
    open spec fn obeys_bitor_spec() -> bool {
        true
    }

    open spec fn bitor_req(self, rhs: Self) -> bool {
        true
    }

    open spec fn bitor_spec(self, rhs: Self) -> Self {
        BitCaskHandlerOpenMode(self.0 | rhs.0)
    }
}

/// A union of modes contains each of its parts, and every set of modes
/// contains itself.
pub proof fn lemma_mode_union_contains(a: BitCaskHandlerOpenMode, b: BitCaskHandlerOpenMode)
    ensures
        BitCaskHandlerOpenMode(a.0 | b.0).spec_contains(a),
        BitCaskHandlerOpenMode(a.0 | b.0).spec_contains(b),
        a.spec_contains(a),
{
    let (x, y) = (a.0, b.0);
    assert((x | y) & x == x) by (bit_vector);
    assert((x | y) & y == y) by (bit_vector);
    assert(x & x == x) by (bit_vector);
}

impl BitCaskHandlerOpenMode {
    /// The mode for reading.
    #[allow(non_snake_case)]
    pub fn READ() -> (m: Self)
        ensures
            m.0 == 1,
    {
        BitCaskHandlerOpenMode(1)
    }

    /// The mode for writing.
    #[allow(non_snake_case)]
    pub fn WRITE() -> (m: Self)
        ensures
            m.0 == 2,
    {
        BitCaskHandlerOpenMode(2)
    }

    /// Whether every mode of `mode` is in `self`.
    pub open spec fn spec_contains(self, mode: Self) -> bool {
        self.0 & mode.0 == mode.0
    }

    /// Whether every mode of `mode` is in `self`.
    pub fn contains(&self, mode: Self) -> (r: bool)
        ensures
            r == self.spec_contains(mode),
    {
        (self.0 & mode.0) == mode.0
    }
}

/// The length of the row at `buf[pos..]`, if a whole row is there.
fn row_len_at(buf: &[u8], pos: usize) -> (r: Option<usize>)
    requires
        pos <= buf@.len(),
    ensures
        match r {
            Some(n) => parse_row(buf@.subrange(pos as int, buf@.len() as int)) matches Some(row)
                && n == row.encoded_len(),
            None => parse_row(buf@.subrange(pos as int, buf@.len() as int)) is None,
        },
{
    let len = buf.len();
    if len - pos < 36 {
        return None;
    }
    let ghost s = buf@.subrange(pos as int, buf@.len() as int);
    let key_size = get_u64(buf, pos + 20);
    let value_size = get_u64(buf, pos + 28);
    assert(buf@.subrange(pos + 20, buf@.len() as int) == s.subrange(20, s.len() as int));
    assert(buf@.subrange(pos + 28, buf@.len() as int) == s.subrange(28, s.len() as int));
    let room = (len - pos - 36) as u64;
    if key_size > room || value_size > room - key_size {
        return None;
    }
    Some(36 + key_size as usize + value_size as usize)
}

/// Whether `contents` is a sequence of whole rows.
pub fn is_well_formed_log(contents: &[u8]) -> (r: bool)
    ensures
        r == log_well_formed(contents@),
{
    let mut pos: usize = 0;
    assert(contents@.subrange(0, contents@.len() as int) == contents@);
    while pos < contents.len()
        invariant
            pos <= contents@.len(),
            log_well_formed(contents@) == log_well_formed(
                contents@.subrange(pos as int, contents@.len() as int),
            ),
        decreases contents@.len() - pos,
    {
        let ghost s = contents@.subrange(pos as int, contents@.len() as int);
        match row_len_at(contents, pos) {
            Some(n) => {
                assert(s.subrange(n as int, s.len() as int) == contents@.subrange(
                    (pos + n) as int,
                    contents@.len() as int,
                ));
                pos = pos + n;
            },
            None => {
                return false;
            },
        }
    }
    assert(contents@.subrange(pos as int, contents@.len() as int).len() == 0);
    true
}

/// Reads the rows of the data file `filepath`, whose bytes are `contents`,
/// into `key_dir`. With `checksum_strict`, rows that store a value and whose
/// checksum does not hold are left out.
pub fn populate_in_memory_hash_map_with_file_data(
    key_dir: &mut KeyDirectory,
    filepath: &[u8],
    contents: &[u8],
    checksum_strict: bool,
)
    requires
        old(key_dir).wf(),
        log_well_formed(contents@),
    ensures
        final(key_dir).wf(),
        final(key_dir)@ == replay_log(old(key_dir)@, filepath@, contents@, 0, checksum_strict),
{
    let mut current_read_position: usize = 0;
    assert(contents@.subrange(0, contents@.len() as int) == contents@);
    while current_read_position < contents.len()
        invariant
            key_dir.wf(),
            current_read_position <= contents@.len(),
            log_well_formed(
                contents@.subrange(current_read_position as int, contents@.len() as int),
            ),
            replay_log(
                key_dir@,
                filepath@,
                contents@.subrange(current_read_position as int, contents@.len() as int),
                current_read_position as nat,
                checksum_strict,
            ) == replay_log(old(key_dir)@, filepath@, contents@, 0, checksum_strict),
        decreases contents@.len() - current_read_position,
    {
        let ghost s = contents@.subrange(current_read_position as int, contents@.len() as int);
        let rest = vstd::slice::slice_subrange(contents, current_read_position, contents.len());
        let (disk_row, n) = BitCaskDiskRow::try_from(rest).unwrap();
        assert(s.subrange(n as int, s.len() as int) == contents@.subrange(
            current_read_position + n,
            contents@.len() as int,
        ));
        current_read_position = current_read_position + n;
        if checksum_strict && disk_row.timestamp != 0 && !disk_row.checksum_matches() {
            continue;
        }
        if disk_row.timestamp == 0 {
            key_dir.delete(bytes_as_slice(&disk_row.key));
            continue;
        }
        let value_offset = current_read_position - disk_row.value_size as usize;
        let in_memory_entry = BitCaskInMemoryValue::from_disk_entry(
            &disk_row,
            filepath,
            value_offset as u64,
        );
        let _ = key_dir.put(bytes_as_slice(&disk_row.key), in_memory_entry);
    }
}

/// Reads the data files `data_entries`, whose bytes are `contents`, in order
/// into a new key directory. With `checksum_strict`, rows that store a value
/// and whose checksum does not hold are left out.
pub fn populate_in_memory_table_data(
    data_entries: &[DataFile],
    contents: &[Vec<u8>],
    checksum_strict: bool,
) -> (r: KeyDirectory)
    requires
        data_entries@.len() == contents@.len(),
        forall|i: int| 0 <= i < contents@.len() ==> log_well_formed(#[trigger] contents@[i]@),
    ensures
        r.wf(),
        r@ == replay_files(
            Map::empty(),
            data_entries@.map_values(|f: DataFile| f.file_path@),
            contents@.map_values(|c: Vec<u8>| c@),
            checksum_strict,
        ),
{
    let mut key_dir = KeyDirectory::default();
    let ghost ids = data_entries@.map_values(|f: DataFile| f.file_path@);
    let ghost logs = contents@.map_values(|c: Vec<u8>| c@);
    let mut i: usize = 0;
    while i < data_entries.len()
        invariant
            data_entries@.len() == contents@.len(),
            forall|j: int| 0 <= j < contents@.len() ==> log_well_formed(#[trigger] contents@[j]@),
            ids == data_entries@.map_values(|f: DataFile| f.file_path@),
            logs == contents@.map_values(|c: Vec<u8>| c@),
            i <= data_entries@.len(),
            key_dir.wf(),
            key_dir@ == replay_files(
                Map::empty(),
                ids.subrange(0, i as int),
                logs.subrange(0, i as int),
                checksum_strict,
            ),
        decreases data_entries@.len() - i,
    {
        populate_in_memory_hash_map_with_file_data(
            &mut key_dir,
            data_entries[i].file_path.as_slice(),
            contents[i].as_slice(),
            checksum_strict,
        );
        assert(ids.subrange(0, i + 1).drop_last() == ids.subrange(0, i as int));
        assert(logs.subrange(0, i + 1).drop_last() == logs.subrange(0, i as int));
        i = i + 1;
    }
    assert(ids.subrange(0, i as int) == ids);
    assert(logs.subrange(0, i as int) == logs);
    key_dir
}

/// How a handler is opened.
pub struct BitCaskHandlerOpenOpts {
    /// A data file that would grow past this size is closed and a new one
    /// takes the row.
    pub max_file_size_in_bytes: u64,
    pub mode: BitCaskHandlerOpenMode,
    /// Indicates if at start time, system must check CRC of entries: rows
    /// that store a value and whose checksum does not hold are then left
    /// out when the data files are read.
    pub hintfile_checksum_strict: bool,
}

/// Why a handler could not be opened.
#[derive(Debug)]
pub enum BitCaskHandlerOpenError {
    IOError(std::io::Error),
}

/// Why a value could not be stored.
#[derive(Debug)]
pub enum BitCaskHandlerPutError {
    IOError(std::io::Error),
    MissingWritePermission(BitCaskHandlerOpenMode),
}

/// What a pending write records once its row is on disk.
pub enum WriteKind {
    /// The row stores a value; the key directory learns where it lies.
    Put,
    /// The row marks its key deleted; the key directory already forgot it.
    Delete,
}

/// A row that the handler has decided to write: its bytes, whether a new
/// active data file must be started first, and what to record once the
/// bytes are written.
pub struct PendingWrite {
    pub bytes: Vec<u8>,
    pub rotate: bool,
    pub key: Vec<u8>,
    pub value_size: u64,
    pub timestamp: u128,
    pub kind: WriteKind,
    pub row: Ghost<DiskRowView>,
}

impl PendingWrite {
    /// The bytes are those of the row, and the other fields agree with it.
    pub open spec fn wf(&self) -> bool {
        &&& self.bytes@ == self.row@.encode()
        &&& self.row@.sizes_match()
        &&& self.key@ == self.row@.key
        &&& self.value_size == self.row@.value_size
        &&& self.kind is Put ==> self.timestamp == self.row@.timestamp && checksum_holds(self.row@)
        &&& self.kind is Delete ==> self.row@.timestamp == 0 && self.row@.value.len() == 0
    }
}

/// An open or closed store: the key directory, the active data file, the
/// data files before it, and the options it was opened with. Beside them it
/// keeps, as a model, the bytes that it has written to each data file and
/// the value that it holds for each key.
pub struct BitCaskHandler<State = BitCaskHandlerClosed> {
    key_dir: KeyDirectory,
    active_data_file: ActiveDataFile,
    inactive_data_files: Vec<DataFile>,
    _state: core::marker::PhantomData<State>,
    opts: BitCaskHandlerOpenOpts,
    logs: Ghost<Seq<Seq<u8>>>,
    values: Ghost<Map<Seq<u8>, Seq<u8>>>,
}

impl<State> BitCaskHandler<State> {
    /// Where the latest value of each key lies.
    pub closed spec fn key_directory(&self) -> Map<Seq<u8>, InMemoryView> {
        self.key_dir@
    }

    /// The path of the active data file.
    pub closed spec fn active_file_id(&self) -> Seq<u8> {
        self.active_data_file.file_path@
    }

    /// The bytes written to the active data file.
    pub closed spec fn active_size(&self) -> u64 {
        self.active_data_file.current_file_size
    }

    /// The paths of the data files, oldest first, the active one last.
    pub closed spec fn file_ids(&self) -> Seq<Seq<u8>> {
        self.inactive_data_files@.map_values(|f: DataFile| f.file_path@).push(
            self.active_data_file.file_path@,
        )
    }

    /// The bytes of each data file, in the order of `file_ids`.
    pub closed spec fn logs(&self) -> Seq<Seq<u8>> {
        self.logs@
    }

    /// The value that the store holds for each key.
    pub closed spec fn values(&self) -> Map<Seq<u8>, Seq<u8>> {
        self.values@
    }

    /// The modes the handler was opened with.
    pub closed spec fn mode(&self) -> BitCaskHandlerOpenMode {
        self.opts.mode
    }

    /// Whether rows are read back with their checksums checked.
    pub closed spec fn checksum_strict(&self) -> bool {
        self.opts.hintfile_checksum_strict
    }

    /// The size past which a data file takes no more rows.
    pub closed spec fn max_file_size(&self) -> u64 {
        self.opts.max_file_size_in_bytes
    }

    /// The key directory is well formed and has the keys that the store
    /// holds, and each data file has its bytes.
    pub closed spec fn wf(&self) -> bool {
        &&& self.key_dir.wf()
        &&& self.key_dir@.dom() == self.values@.dom()
        &&& self.logs@.len() == self.inactive_data_files@.len() + 1
    }

    /// The data files as the handler wrote them, taking a pending row into
    /// account: the active file's size is the length of its bytes, every
    /// file is a sequence of whole rows, and reading the files in order
    /// gives the key directory and the values, less the key of a pending
    /// deletion.
    pub open spec fn consistent_with(&self, deleted: Option<Seq<u8>>) -> bool {
        &&& self.wf()
        &&& self.active_size() == self.logs().last().len()
        &&& forall|i: int|
            0 <= i < self.logs().len() ==> log_well_formed(#[trigger] self.logs()[i])
                && self.logs()[i].len() <= u64::MAX
        &&& self.key_directory() == match deleted {
            Some(k) => replay_files(
                Map::empty(),
                self.file_ids(),
                self.logs(),
                self.checksum_strict(),
            ).remove(k),
            None => replay_files(Map::empty(), self.file_ids(), self.logs(), self.checksum_strict()),
        }
        &&& self.values() == match deleted {
            Some(k) => replay_files_values(self.logs(), self.checksum_strict()).remove(k),
            None => replay_files_values(self.logs(), self.checksum_strict()),
        }
    }

    /// Every row that stores a value, in every data file, carries the
    /// checksum of its payload.
    pub open spec fn rows_intact(&self) -> bool {
        forall|i: int| 0 <= i < self.logs().len() ==> log_checksums_hold(#[trigger] self.logs()[i])
    }

    /// Reading the data files in order gives the key directory.
    pub open spec fn consistent(&self) -> bool {
        self.consistent_with(None)
    }

    /// The handler is consistent with the row of `pending` still to come.
    pub open spec fn pending_consistent(&self, pending: PendingWrite) -> bool {
        match pending.kind {
            WriteKind::Put => self.consistent(),
            WriteKind::Delete => self.consistent_with(Some(pending.key@)),
        }
    }
}

impl BitCaskHandler<BitCaskHandlerClosed> {
    /// Opens a store on the data files `inactive_data_files`, oldest first,
    /// whose bytes are `contents`, with `active_data_file` as the new file
    /// that takes rows. With `opts.hintfile_checksum_strict`, rows that store
    /// a value and whose checksum does not hold are left out.
    pub fn open(
        opts: BitCaskHandlerOpenOpts,
        inactive_data_files: Vec<DataFile>,
        contents: Vec<Vec<u8>>,
        active_data_file: ActiveDataFile,
    ) -> (h: BitCaskHandler<BitCaskHandlerOpen>)
        requires
            inactive_data_files@.len() == contents@.len(),
            forall|i: int| 0 <= i < contents@.len() ==> log_well_formed(#[trigger] contents@[i]@),
            active_data_file.current_file_size == 0,
        ensures
            h.consistent(),
            h.key_directory() == replay_files(
                Map::empty(),
                inactive_data_files@.map_values(|f: DataFile| f.file_path@),
                contents@.map_values(|c: Vec<u8>| c@),
                opts.hintfile_checksum_strict,
            ),
            h.file_ids() == inactive_data_files@.map_values(|f: DataFile| f.file_path@).push(
                active_data_file.file_path@,
            ),
            h.logs() == contents@.map_values(|c: Vec<u8>| c@).push(Seq::empty()),
            h.values() == replay_files_values(
                contents@.map_values(|c: Vec<u8>| c@),
                opts.hintfile_checksum_strict,
            ),
            h.active_file_id() == active_data_file.file_path@,
            h.active_size() == 0,
            h.mode() == opts.mode,
            h.max_file_size() == opts.max_file_size_in_bytes,
            h.checksum_strict() == opts.hintfile_checksum_strict,
            (forall|i: int| 0 <= i < contents@.len() ==> log_checksums_hold(#[trigger] contents@[i]@))
                ==> h.rows_intact(),
    {
        let strict = opts.hintfile_checksum_strict;
        let key_dir = populate_in_memory_table_data(
            inactive_data_files.as_slice(),
            contents.as_slice(),
            strict,
        );
        let ghost ids = inactive_data_files@.map_values(|f: DataFile| f.file_path@);
        let ghost logs = contents@.map_values(|c: Vec<u8>| c@);
        proof {
            assert forall|i: int| 0 <= i < logs.len() implies log_well_formed(#[trigger] logs[i])
                && logs[i].len() <= u64::MAX by {
                assert(contents@[i].len() == contents@[i]@.len());
            }
            lemma_replay_files_locations(ids, logs, strict);
        }
        let h = BitCaskHandler {
            key_dir,
            active_data_file,
            inactive_data_files,
            _state: core::marker::PhantomData,
            opts,
            logs: Ghost(logs.push(Seq::empty())),
            values: Ghost(replay_files_values(logs, strict)),
        };
        assert(h.file_ids().drop_last() == ids);
        assert(h.logs().drop_last() == logs);
        assert forall|i: int| 0 <= i < h.logs().len() implies log_well_formed(
            #[trigger] h.logs()[i],
        ) && h.logs()[i].len() <= u64::MAX && ((forall|j: int|
            0 <= j < contents@.len() ==> log_checksums_hold(#[trigger] contents@[j]@))
            ==> log_checksums_hold(h.logs()[i])) by {
            if i < logs.len() {
                assert(h.logs()[i] == logs[i]);
                assert(logs[i] == contents@[i]@);
            }
        }
        h
    }
}

impl BitCaskHandler<BitCaskHandlerOpen> {
    /// Closes a store that was opened without the write mode. (A store
    /// opened for writing would have to be synced first, which this store
    /// does not do.)
    pub fn close(self) -> (r: Result<BitCaskHandler<BitCaskHandlerClosed>, std::io::Error>)
        requires
            !self.mode().spec_contains(BitCaskHandlerOpenMode(2)),
        ensures
            r matches Ok(h) && h.key_directory() == self.key_directory() && h.file_ids()
                == self.file_ids() && h.logs() == self.logs() && h.active_size()
                == self.active_size() && h.mode() == self.mode() && h.max_file_size()
                == self.max_file_size() && h.values() == self.values() && h.checksum_strict()
                == self.checksum_strict() && h.active_file_id() == self.active_file_id() && (
            self.wf() ==> h.wf()),
    {
        Ok(
            BitCaskHandler {
                key_dir: self.key_dir,
                active_data_file: self.active_data_file,
                inactive_data_files: self.inactive_data_files,
                _state: core::marker::PhantomData,
                opts: self.opts,
                logs: self.logs,
                values: self.values,
            },
        )
    }

    /// Where the latest value of `key` lies, if the store holds `key`.
    pub fn get(&self, key: &[u8]) -> (r: Option<&BitCaskInMemoryValue>)
        requires
            self.wf(),
        ensures
            match r {
                Some(v) => self.key_directory().contains_key(key@) && v@
                    == self.key_directory()[key@],
                None => !self.key_directory().contains_key(key@),
            },
            r is Some <==> self.values().contains_key(key@),
    {
        self.key_dir.get(key)
    }

    /// The write that stores `row`: its bytes, and whether they would take
    /// the active data file past its maximum size.
    fn write_row_on_disk(&self, row: &BitCaskDiskRow, kind: WriteKind) -> (p: PendingWrite)
        requires
            self.active_size() + row@.encoded_len() <= u64::MAX,
            row@.sizes_match(),
        ensures
            p.bytes@ == row@.encode(),
            p.row@ == row@,
            p.key@ == row@.key,
            p.value_size == row@.value_size,
            p.timestamp == row@.timestamp,
            p.kind == kind,
            p.rotate == (self.active_size() + row@.encoded_len() > self.max_file_size()),
    {
        proof {
            lemma_row_roundtrip(row@, Seq::empty());
        }
        let mut buffer: Vec<u8> = Vec::new();
        put_u32(&mut buffer, row.crc);
        put_u128(&mut buffer, row.timestamp);
        put_u64(&mut buffer, row.key_size);
        put_u64(&mut buffer, row.value_size);
        put_slice(&mut buffer, bytes_as_slice(&row.key));
        put_slice(&mut buffer, bytes_as_slice(&row.value));
        assert(row@.encode() + Seq::<u8>::empty() == row@.encode());
        let rotate = self.active_data_file.current_file_size + buffer.len() as u64
            > self.opts.max_file_size_in_bytes;
        PendingWrite {
            bytes: buffer,
            rotate,
            key: vstd::slice::slice_to_vec(bytes_as_slice(&row.key)),
            value_size: row.value_size,
            timestamp: row.timestamp,
            kind,
            row: Ghost(row@),
        }
    }

    /// Decides how to store `value` under `key` at time `timestamp`: fails
    /// if the store is not open for writing, and otherwise gives the row to
    /// write. Nothing changes until the row is written.
    pub fn put(&self, key: &[u8], value: &[u8], timestamp: u128) -> (r: Result<
        PendingWrite,
        BitCaskHandlerPutError,
    >)
        requires
            self.active_size() + 36 + key@.len() + value@.len() <= u64::MAX,
        ensures
            match r {
                Ok(p) => {
                    &&& self.mode().spec_contains(BitCaskHandlerOpenMode(2))
                    &&& p.wf()
                    &&& p.kind is Put
                    &&& p.row@ == fresh_row(key@, value@, timestamp)
                    &&& p.rotate == (self.active_size() + p.bytes@.len() > self.max_file_size())
                    &&& (self.consistent() ==> self.pending_consistent(p))
                },
                Err(BitCaskHandlerPutError::MissingWritePermission(m)) => {
                    &&& !self.mode().spec_contains(BitCaskHandlerOpenMode(2))
                    &&& m == self.mode()
                },
                Err(BitCaskHandlerPutError::IOError(_)) => false,
            },
    {
        if !self.opts.mode.contains(BitCaskHandlerOpenMode::WRITE()) {
            return Err(BitCaskHandlerPutError::MissingWritePermission(self.opts.mode));
        }
        let disk_value_row = BitCaskDiskRow::new(key, value, timestamp);
        let p = self.write_row_on_disk(&disk_value_row, WriteKind::Put);
        proof {
            lemma_row_roundtrip(disk_value_row@, Seq::empty());
        }
        Ok(p)
    }

    /// Makes `data_file`, a new and empty data file, the active one; the
    /// active data file joins the others.
    pub fn set_new_active_file(&mut self, data_file: ActiveDataFile)
        requires
            old(self).wf(),
            data_file.current_file_size == 0,
        ensures
            final(self).wf(),
            final(self).key_directory() == old(self).key_directory(),
            final(self).file_ids() == old(self).file_ids().push(data_file.file_path@),
            final(self).logs() == old(self).logs().push(Seq::empty()),
            final(self).active_file_id() == data_file.file_path@,
            final(self).active_size() == 0,
            final(self).values() == old(self).values(),
            final(self).mode() == old(self).mode(),
            final(self).max_file_size() == old(self).max_file_size(),
            final(self).checksum_strict() == old(self).checksum_strict(),
            old(self).rows_intact() ==> final(self).rows_intact(),
            forall|d: Option<Seq<u8>>|
                old(self).consistent_with(d) ==> #[trigger] final(self).consistent_with(d),
    {
        let mut data_file = data_file;
        core::mem::swap(&mut self.active_data_file, &mut data_file);
        self.inactive_data_files.push(DataFile::from(data_file.file_path));
        self.logs = Ghost(self.logs@.push(Seq::empty()));
        let ghost m0 = old(self).key_directory();
        assert(self.file_ids() == old(self).file_ids().push(self.active_data_file.file_path@));
        assert(self.file_ids().drop_last() == old(self).file_ids());
        assert(self.logs().drop_last() == old(self).logs());
        assert(replay_files_values(self.logs(), self.checksum_strict()) == replay_files_values(
            old(self).logs(),
            self.checksum_strict(),
        ));
        assert forall|i: int|
            0 <= i < self.logs().len() && old(self).rows_intact() implies log_checksums_hold(
            #[trigger] self.logs()[i],
        ) by {
            if i < old(self).logs().len() {
                assert(self.logs()[i] == old(self).logs()[i]);
            }
        }
        assert forall|d: Option<Seq<u8>>| old(self).consistent_with(d) implies #[trigger] self.consistent_with(
            d,
        ) by {
            assert forall|i: int| 0 <= i < self.logs().len() implies log_well_formed(
                #[trigger] self.logs()[i],
            ) && self.logs()[i].len() <= u64::MAX by {
                if i < old(self).logs().len() {
                    assert(self.logs()[i] == old(self).logs()[i]);
                }
            }
        }
    }

    /// Records that `written` bytes of `pending` went to the active data
    /// file: the file grew by that much and, for a put, the key directory
    /// learns where the value lies.
    pub fn finish_write(&mut self, pending: &PendingWrite, written: u64)
        requires
            old(self).wf(),
            pending.wf(),
            written <= pending.bytes@.len(),
            old(self).active_size() + written <= u64::MAX,
            pending.kind is Put ==> old(self).active_size() + written >= pending.value_size,
        ensures
            final(self).wf(),
            final(self).active_size() == old(self).active_size() + written,
            final(self).file_ids() == old(self).file_ids(),
            final(self).logs() == old(self).logs().update(
                old(self).logs().len() - 1,
                old(self).logs().last() + pending.bytes@.subrange(0, written as int),
            ),
            final(self).key_directory() == match pending.kind {
                WriteKind::Put => old(self).key_directory().insert(
                    pending.key@,
                    InMemoryView {
                        file_id: old(self).active_file_id(),
                        value_size: pending.value_size,
                        value_offset: (old(self).active_size() + written
                            - pending.value_size) as u64,
                        timestamp: pending.timestamp,
                    },
                ),
                WriteKind::Delete => old(self).key_directory(),
            },
            final(self).values() == match pending.kind {
                WriteKind::Put => old(self).values().insert(pending.key@, pending.row@.value),
                WriteKind::Delete => old(self).values(),
            },
            final(self).mode() == old(self).mode(),
            final(self).max_file_size() == old(self).max_file_size(),
            final(self).active_file_id() == old(self).active_file_id(),
            final(self).checksum_strict() == old(self).checksum_strict(),
            (old(self).pending_consistent(*pending) && old(self).rows_intact() && written
                == pending.bytes@.len()) ==> final(self).rows_intact(),
            ({
                &&& old(self).pending_consistent(*pending)
                &&& written == pending.bytes@.len()
                &&& pending.kind is Put ==> pending.timestamp != 0
            }) ==> final(self).consistent(),
            (old(self).consistent() && written == pending.bytes@.len() && pending.kind is Put)
                ==> final(self).logs().last().subrange(
                final(self).key_directory()[pending.key@].value_offset as int,
                final(self).key_directory()[pending.key@].value_offset
                    + final(self).key_directory()[pending.key@].value_size,
            ) == pending.row@.value,
    {
        let ghost old_logs = self.logs@;
        let ghost last = old_logs.last();
        self.active_data_file.current_file_size = self.active_data_file.current_file_size + written;
        self.logs = Ghost(
            old_logs.update(
                old_logs.len() - 1,
                last + pending.bytes@.subrange(0, written as int),
            ),
        );
        match pending.kind {
            WriteKind::Put => {
                let value_offset = self.active_data_file.current_file_size - pending.value_size;
                let in_memory_value = BitCaskInMemoryValue {
                    file_id: vstd::slice::slice_to_vec(self.active_data_file.file_path.as_slice()),
                    value_size: pending.value_size,
                    value_offset,
                    timestamp: pending.timestamp,
                };
                let _ = self.key_dir.put(pending.key.as_slice(), in_memory_value);
                self.values = Ghost(self.values@.insert(pending.key@, pending.row@.value));
            },
            WriteKind::Delete => {},
        }
        proof {
            let ids = self.file_ids();
            assert(self.file_ids() == old(self).file_ids());
            if written == pending.bytes@.len() {
                assert(pending.bytes@.subrange(0, written as int) == pending.row@.encode());
                if old(self).pending_consistent(*pending) || old(self).consistent() {
                    let strict = self.checksum_strict();
                    let prev = replay_files(Map::empty(), ids.drop_last(), old_logs.drop_last(), strict);
                    lemma_replay_after_append(prev, ids.last(), last, 0, pending.row@, strict);
                    let prev_values = replay_files_values(old_logs.drop_last(), strict);
                    lemma_replay_values_after_append(prev_values, last, pending.row@, strict);
                    assert(self.logs().drop_last() == old_logs.drop_last());
                    assert(self.logs().last() == last + pending.row@.encode());
                    assert(replay_files_values(old_logs, strict) == replay_log_values(
                        prev_values,
                        last,
                        strict,
                    ));
                    assert(replay_files_values(self.logs(), strict) == replay_log_values(
                        prev_values,
                        last + pending.row@.encode(),
                        strict,
                    ));
                    assert(replay_files_values(self.logs(), strict) == apply_row_value(
                        replay_files_values(old_logs, strict),
                        pending.row@,
                        strict,
                    ));
                    assert(self.logs().drop_last() == old_logs.drop_last());
                    assert forall|i: int| 0 <= i < self.logs().len() implies log_well_formed(
                        #[trigger] self.logs()[i],
                    ) && self.logs()[i].len() <= u64::MAX by {
                        if i < old_logs.len() - 1 {
                            assert(self.logs()[i] == old_logs[i]);
                        }
                    }
                    lemma_row_roundtrip(pending.row@, Seq::empty());
                    lemma_value_at_row_end(last, pending.row@);
                    if old(self).rows_intact() {
                        assert(log_checksums_hold(old_logs[old_logs.len() - 1]));
                        assert(log_well_formed(old_logs[old_logs.len() - 1]));
                        lemma_checksums_hold_after_append(last, pending.row@);
                        assert forall|i: int| 0 <= i < self.logs().len() implies log_checksums_hold(
                            #[trigger] self.logs()[i],
                        ) by {
                            if i < old_logs.len() - 1 {
                                assert(self.logs()[i] == old_logs[i]);
                            }
                        }
                    }
                    if pending.kind is Put {
                        assert(self.key_directory()[pending.key@].value_offset == last.len()
                            + pending.row@.encoded_len() - pending.row@.value_size);
                    }
                }
            }
        }
    }

    /// Removes `key` from the store at time `timestamp`. If the store held
    /// it, gives the row that marks it deleted, to be written: its timestamp
    /// is zero, its checksum is that of the row stamped with `timestamp`.
    /// The key directory forgets the key at once.
    pub fn delete(&mut self, key: &[u8], timestamp: u128) -> (r: Option<PendingWrite>)
        requires
            old(self).wf(),
            old(self).key_directory().contains_key(key@) ==> old(self).active_size() + 36
                + key@.len() <= u64::MAX,
        ensures
            final(self).wf(),
            final(self).key_directory() == old(self).key_directory().remove(key@),
            final(self).values() == old(self).values().remove(key@),
            final(self).file_ids() == old(self).file_ids(),
            final(self).logs() == old(self).logs(),
            final(self).active_file_id() == old(self).active_file_id(),
            final(self).active_size() == old(self).active_size(),
            final(self).mode() == old(self).mode(),
            final(self).max_file_size() == old(self).max_file_size(),
            final(self).checksum_strict() == old(self).checksum_strict(),
            match r {
                Some(p) => {
                    &&& old(self).key_directory().contains_key(key@)
                    &&& p.wf()
                    &&& p.kind is Delete
                    &&& p.key@ == key@
                    &&& p.row@ == (DiskRowView { timestamp: 0, ..fresh_row(key@, Seq::empty(), timestamp) })
                    &&& p.rotate == (old(self).active_size() + p.bytes@.len()
                        > old(self).max_file_size())
                    &&& (old(self).consistent() ==> final(self).pending_consistent(p))
                },
                None => {
                    &&& !old(self).key_directory().contains_key(key@)
                    &&& final(self).key_directory() == old(self).key_directory()
                    &&& final(self).values() == old(self).values()
                    &&& (old(self).consistent() ==> final(self).consistent())
                },
            },
    {
        let removed = self.key_dir.delete(key);
        self.values = Ghost(self.values@.remove(key@));
        if removed.is_none() {
            assert(self.key_directory() =~= old(self).key_directory());
            assert(self.values() =~= old(self).values());
            return None;
        }
        let no_value: [u8; 0] = [];
        assert(no_value@ =~= Seq::<u8>::empty());
        let mut disk_row_value = BitCaskDiskRow::new(key, &no_value, timestamp);
        disk_row_value.timestamp = 0;
        assert(disk_row_value@ == (DiskRowView {
            timestamp: 0,
            ..fresh_row(key@, Seq::empty(), timestamp)
        }));
        proof {
            lemma_row_roundtrip(disk_row_value@, Seq::empty());
        }
        Some(self.write_row_on_disk(&disk_row_value, WriteKind::Delete))
    }

    /// The keys of the store, each once, in no particular order.
    pub fn list_keys(&self) -> (r: Vec<bytes::Bytes>)
        requires
            self.wf(),
        ensures
            forall|i: int|
                0 <= i < r@.len() ==> self.key_directory().contains_key(
                    #[trigger] bytes_view(r@[i]),
                ),
            forall|k: Seq<u8>|
                #[trigger] self.key_directory().contains_key(k) ==> exists|i: int|
                    0 <= i < r@.len() && #[trigger] bytes_view(r@[i]) == k,
            forall|i: int, j: int|
                0 <= i < j < r@.len() ==> #[trigger] bytes_view(r@[i]) != #[trigger] bytes_view(
                    r@[j],
                ),
    {
        let keys = self.key_dir.keys();
        let mut r: Vec<bytes::Bytes> = Vec::new();
        let mut i: usize = 0;
        while i < keys.len()
            invariant
                i <= keys@.len(),
                r@.len() == i,
                forall|j: int| 0 <= j < i ==> #[trigger] bytes_view(r@[j]) == keys@[j]@,
            decreases keys@.len() - i,
        {
            r.push(bytes_copy_from_slice(keys[i]));
            i = i + 1;
        }
        assert forall|k: Seq<u8>| #[trigger] self.key_directory().contains_key(k) implies exists|
            j: int,
        | 0 <= j < r@.len() && #[trigger] bytes_view(r@[j]) == k by {
            let j = choose|j: int| 0 <= j < keys@.len() && #[trigger] keys@[j]@ == k;
            assert(bytes_view(r@[j]) == k);
        }
        assert forall|a: int, b: int| 0 <= a < b < r@.len() implies #[trigger] bytes_view(r@[a])
            != #[trigger] bytes_view(r@[b]) by {
            assert(bytes_view(r@[a]) == keys@[a]@);
            assert(bytes_view(r@[b]) == keys@[b]@);
        }
        assert forall|a: int| 0 <= a < r@.len() implies self.key_directory().contains_key(
            #[trigger] bytes_view(r@[a]),
        ) by {
            assert(bytes_view(r@[a]) == keys@[a]@);
        }
        r
    }
}

/// Opening a store on the data files of a consistent handler, with their
/// bytes, rebuilds that handler's key directory and the values it holds:
/// with the handler's own checksum option, or with either option when every
/// row's checksum is intact (as it is for rows that the handler wrote).
pub proof fn lemma_reopen_recovers_key_directory(
    h: BitCaskHandler<BitCaskHandlerOpen>,
    checksum_strict: bool,
)
    requires
        h.consistent(),
        checksum_strict == h.checksum_strict() || h.rows_intact(),
    ensures
        replay_files(Map::empty(), h.file_ids(), h.logs(), checksum_strict) == h.key_directory(),
        replay_files_values(h.logs(), checksum_strict) == h.values(),
{
    if checksum_strict != h.checksum_strict() {
        lemma_checked_replay_files_agrees(h.file_ids(), h.logs());
    }
}

/// The handler has the bytes of each of its data files, and the active
/// data file is the last of them.
pub proof fn lemma_logs_match_files<State>(h: BitCaskHandler<State>)
    requires
        h.wf(),
    ensures
        h.logs().len() == h.file_ids().len(),
        h.logs().len() > 0,
        h.file_ids().last() == h.active_file_id(),
{
}

/// A data file does not grow past the size limit by taking a row: when the
/// row of `p` would take the active file of `before` past the limit, it goes
/// to a new, empty active file (`rotated`), which then holds that one row.
/// `rotated` is `before` after `set_new_active_file` when `p.rotate`, and
/// `after` is `rotated` once the whole row is written.
pub proof fn lemma_write_keeps_file_within_limit(
    before: BitCaskHandler<BitCaskHandlerOpen>,
    p: PendingWrite,
    rotated: BitCaskHandler<BitCaskHandlerOpen>,
    after: BitCaskHandler<BitCaskHandlerOpen>,
)
    requires
        p.rotate == (before.active_size() + p.bytes@.len() > before.max_file_size()),
        p.rotate ==> rotated.active_size() == 0 && rotated.logs().last() == Seq::<u8>::empty(),
        !p.rotate ==> rotated.active_size() == before.active_size(),
        rotated.max_file_size() == before.max_file_size(),
        after.active_size() == rotated.active_size() + p.bytes@.len(),
        after.logs().last() == rotated.logs().last() + p.bytes@,
        after.max_file_size() == rotated.max_file_size(),
    ensures
        after.active_size() <= after.max_file_size() || after.logs().last() == p.bytes@,
{
    if p.rotate {
        assert(Seq::<u8>::empty() + p.bytes@ == p.bytes@);
    }
}

/// In a consistent store, the location that the key directory gives for
/// each key lies in one of the store's data files and holds, there, the
/// value that the store last wrote for that key; the directory has exactly
/// the keys that the store holds.
pub proof fn lemma_read_gives_back_last_write(h: BitCaskHandler<BitCaskHandlerOpen>)
    requires
        h.consistent(),
    ensures
        locations_hold(h.file_ids(), h.logs(), h.key_directory(), h.values()),
{
    lemma_replay_files_locations(h.file_ids(), h.logs(), h.checksum_strict());
}

impl<State> BitCaskHandler<State> {
    /// The options the handler was opened with.
    pub fn opts(&self) -> (r: &BitCaskHandlerOpenOpts)
        ensures
            r.mode == self.mode(),
            r.max_file_size_in_bytes == self.max_file_size(),
    {
        &self.opts
    }

    /// The data files before the active one, oldest first.
    pub fn inactive_data_files(&self) -> (r: &[DataFile])
        ensures
            r@.map_values(|f: DataFile| f.file_path@) == self.file_ids().drop_last(),
    {
        assert(self.file_ids().drop_last() == self.inactive_data_files@.map_values(
            |f: DataFile| f.file_path@,
        ));
        self.inactive_data_files.as_slice()
    }

    /// The active data file.
    pub fn active_data_file(&self) -> (r: &ActiveDataFile)
        ensures
            r.file_path@ == self.active_file_id(),
            r.current_file_size == self.active_size(),
    {
        &self.active_data_file
    }
}


/// A merge of the older data files, decided and not yet carried out: the
/// path of the merged data file, its bytes, the bytes of the hint file that
/// goes with it, and where each merged key's value lies in it.
pub struct MergePlan {
    merged_file: Vec<u8>,
    data: Vec<u8>,
    hints: Vec<u8>,
    locations: Vec<(Vec<u8>, BitCaskInMemoryValue)>,
    entries: Ghost<Seq<(Seq<u8>, Seq<u8>)>>,
    timestamp: u128,
}

impl MergePlan {
    /// The bytes, the hint entries and the locations are those of the
    /// entries, whose rows fit in a data file.
    #[verifier::type_invariant]
    spec fn inv(self) -> bool {
        &&& self.data@ == merge_rows(self.entries@, self.timestamp)
        &&& self.data@.len() <= u64::MAX
        &&& self.hints@ == merge_hints(self.entries@, self.timestamp)
        &&& locations_match(self.locations@, self.entries@, self.merged_file@, self.timestamp)
    }

    /// The keys and values that the merged data file stores, in order.
    pub closed spec fn entries(&self) -> Seq<(Seq<u8>, Seq<u8>)> {
        self.entries@
    }

    /// The path of the merged data file.
    pub closed spec fn merged_file_id(&self) -> Seq<u8> {
        self.merged_file@
    }

    /// The timestamp of the merged rows.
    pub closed spec fn stamp(&self) -> u128 {
        self.timestamp
    }

    /// The path of the merged data file.
    pub fn merged_file(&self) -> (r: &[u8])
        ensures
            r@ == self.merged_file_id(),
    {
        self.merged_file.as_slice()
    }

    /// The bytes of the merged data file.
    pub fn data(&self) -> (r: &[u8])
        ensures
            r@ == merge_rows(self.entries(), self.stamp()),
            r@.len() <= u64::MAX,
    {
        proof {
            use_type_invariant(self);
        }
        self.data.as_slice()
    }

    /// The bytes of the hint file of the merged data file.
    pub fn hints(&self) -> (r: &[u8])
        ensures
            r@ == merge_hints(self.entries(), self.stamp()),
    {
        proof {
            use_type_invariant(self);
        }
        self.hints.as_slice()
    }
}

impl<State> BitCaskHandler<State> {
    /// The keys whose latest value lies in a data file before the active
    /// one.
    pub open spec fn older_keys(&self) -> Set<Seq<u8>> {
        Set::new(
            |k: Seq<u8>|
                self.key_directory().contains_key(k) && self.key_directory()[k].file_id
                    != self.active_file_id(),
        )
    }

    /// Each of `entries` is a key of `older_keys`, which occurs once, with
    /// the value that the older data files, whose bytes are `contents`,
    /// store at its location.
    #[verifier::opaque]
    pub open spec fn merge_entries_read(
        &self,
        contents: Seq<Seq<u8>>,
        entries: Seq<(Seq<u8>, Seq<u8>)>,
    ) -> bool {
        &&& keys_distinct(entries)
        &&& forall|i: int|
            0 <= i < entries.len() ==> {
                &&& self.older_keys().contains((#[trigger] entries[i]).0)
                &&& stored_value(
                    self.file_ids().drop_last(),
                    contents,
                    self.key_directory()[entries[i].0],
                ) == Some(entries[i].1)
            }
    }

    /// `entries` are read as `merge_entries_read` says, and every key of
    /// `older_keys` has one.
    #[verifier::opaque]
    pub open spec fn merge_entries_complete(
        &self,
        contents: Seq<Seq<u8>>,
        entries: Seq<(Seq<u8>, Seq<u8>)>,
    ) -> bool {
        &&& self.merge_entries_read(contents, entries)
        &&& forall|k: Seq<u8>|
            #[trigger] self.older_keys().contains(k) ==> exists|i: int|
                0 <= i < entries.len() && (#[trigger] entries[i]).0 == k
    }
}

impl BitCaskHandler<BitCaskHandlerOpen> {
    /// The value that `loc` points at in the older data files, whose bytes
    /// are `contents`, if it lies within one of them.
    fn read_stored_value(&self, contents: &[Vec<u8>], loc: &BitCaskInMemoryValue) -> (r: Option<
        Vec<u8>,
    >)
        requires
            self.wf(),
        ensures
            match r {
                Some(v) => stored_value(
                    self.file_ids().drop_last(),
                    contents@.map_values(|c: Vec<u8>| c@),
                    loc@,
                ) == Some(v@),
                None => stored_value(
                    self.file_ids().drop_last(),
                    contents@.map_values(|c: Vec<u8>| c@),
                    loc@,
                ) is None,
            },
    {
        let ghost ids = self.file_ids().drop_last();
        let ghost cv = contents@.map_values(|c: Vec<u8>| c@);
        assert(ids == self.inactive_data_files@.map_values(|f: DataFile| f.file_path@));
        let mut i: usize = 0;
        while i < self.inactive_data_files.len()
            invariant
                i <= self.inactive_data_files@.len(),
                ids == self.inactive_data_files@.map_values(|f: DataFile| f.file_path@),
                cv == contents@.map_values(|c: Vec<u8>| c@),
                ids == self.file_ids().drop_last(),
                forall|j: int| 0 <= j < i ==> ids[j] != loc.file_id@,
            decreases self.inactive_data_files@.len() - i,
        {
            if bytes_equal(self.inactive_data_files[i].file_path.as_slice(), loc.file_id.as_slice()) {
                proof {
                    assert(is_first_index(ids, loc.file_id@, i as int));
                    let c = choose|c: int| is_first_index(ids, loc.file_id@, c);
                    lemma_first_index_unique(ids, loc.file_id@, i as int, c);
                }
                if i >= contents.len() {
                    return None;
                }
                let bytes = contents[i].as_slice();
                let len = bytes.len() as u64;
                assert(cv[i as int] == bytes@);
                if loc.value_offset > len || loc.value_size > len - loc.value_offset {
                    return None;
                }
                let start = loc.value_offset as usize;
                let end = (loc.value_offset + loc.value_size) as usize;
                return Some(vstd::slice::slice_to_vec(vstd::slice::slice_subrange(bytes, start, end)));
            }
            i = i + 1;
        }
        assert(!exists|c: int| is_first_index(ids, loc.file_id@, c));
        None
    }

    /// Decides the merge of the older data files, whose bytes are
    /// `contents`, into the new data file `merged_file`, its rows stamped
    /// with `timestamp`: one row for each key whose latest value lies in an
    /// older file, holding the value stored at that location, and one hint
    /// entry for each row. Gives nothing when a location does not lie within
    /// its file, or when the rows would not fit in a data file.
    pub fn plan_merge(&self, merged_file: Vec<u8>, contents: &[Vec<u8>], timestamp: u128) -> (r:
        Option<MergePlan>)
        requires
            self.wf(),
        ensures
            match r {
                Some(p) => {
                    &&& p.merged_file_id() == merged_file@
                    &&& p.stamp() == timestamp
                    &&& self.merge_entries_complete(
                        contents@.map_values(|c: Vec<u8>| c@),
                        p.entries(),
                    )
                },
                None => {
                    ||| exists|k: Seq<u8>|
                        self.older_keys().contains(k) && stored_value(
                            self.file_ids().drop_last(),
                            contents@.map_values(|c: Vec<u8>| c@),
                            self.key_directory()[k],
                        ) is None
                    ||| exists|e: Seq<(Seq<u8>, Seq<u8>)>|
                        self.merge_entries_read(contents@.map_values(|c: Vec<u8>| c@), e)
                            && merge_rows(e, timestamp).len() > u64::MAX
                },
            },
    {
        let ghost cv = contents@.map_values(|c: Vec<u8>| c@);
        let keys = self.key_dir.keys();
        let mut data: Vec<u8> = Vec::new();
        let mut hints: Vec<u8> = Vec::new();
        let mut locations: Vec<(Vec<u8>, BitCaskInMemoryValue)> = Vec::new();
        let mut total: u64 = 0;
        let ghost mut entries: Seq<(Seq<u8>, Seq<u8>)> = Seq::empty();
        proof {
            reveal(BitCaskHandler::merge_entries_read);
        }
        let mut i: usize = 0;
        while i < keys.len()
            invariant
                self.wf(),
                cv == contents@.map_values(|c: Vec<u8>| c@),
                i <= keys@.len(),
                forall|t: int|
                    0 <= t < keys@.len() ==> self.key_directory().contains_key(#[trigger] keys@[t]@),
                forall|k: Seq<u8>|
                    #[trigger] self.key_directory().contains_key(k) ==> exists|t: int|
                        0 <= t < keys@.len() && #[trigger] keys@[t]@ == k,
                forall|a: int, b: int|
                    0 <= a < b < keys@.len() ==> #[trigger] keys@[a]@ != #[trigger] keys@[b]@,
                data@ == merge_rows(entries, timestamp),
                hints@ == merge_hints(entries, timestamp),
                total == data@.len(),
                locations_match(locations@, entries, merged_file@, timestamp),
                self.merge_entries_read(cv, entries),
                forall|j: int|
                    0 <= j < entries.len() ==> exists|t: int|
                        0 <= t < i && #[trigger] keys@[t]@ == (#[trigger] entries[j]).0,
                forall|t: int|
                    0 <= t < i && self.older_keys().contains(#[trigger] keys@[t]@) ==> exists|j: int|
                        0 <= j < entries.len() && (#[trigger] entries[j]).0 == keys@[t]@,
            decreases keys@.len() - i,
        {
            let key = keys[i];
            assert(self.key_directory().contains_key(key@));
            let loc = self.key_dir.get(key).unwrap();
            if !bytes_equal(loc.file_id.as_slice(), self.active_data_file.file_path.as_slice()) {
                assert(self.older_keys().contains(key@));
                let value = match self.read_stored_value(contents, loc) {
                    Some(v) => v,
                    None => {
                        return None;
                    },
                };
                let ghost next = entries.push((key@, value@));
                proof {
                    assert forall|j: int| 0 <= j < entries.len() implies #[trigger] entries[j].0
                        != key@ by {
                        let t = choose|t: int| 0 <= t < i && #[trigger] keys@[t]@ == entries[j].0;
                        assert(keys@[t]@ != keys@[i as int]@);
                    }
                    lemma_merge_entries_push(*self, cv, entries, key@, value@);
                }
                let appended = append_merge_entry(
                    &mut data,
                    &mut hints,
                    &mut locations,
                    total,
                    key,
                    value.as_slice(),
                    merged_file.as_slice(),
                    timestamp,
                    Ghost(entries),
                );
                let new_total = match appended {
                    Some(t) => t,
                    None => {
                        return None;
                    },
                };
                proof {
                    assert forall|j: int| 0 <= j < next.len() implies exists|t: int|
                        0 <= t < i + 1 && #[trigger] keys@[t]@ == (#[trigger] next[j]).0 by {
                        if j < entries.len() {
                            assert(next[j] == entries[j]);
                        } else {
                            assert(keys@[i as int]@ == next[j].0);
                        }
                    }
                    assert forall|t: int|
                        0 <= t < i + 1 && self.older_keys().contains(
                            #[trigger] keys@[t]@,
                        ) implies exists|j: int|
                        0 <= j < next.len() && (#[trigger] next[j]).0 == keys@[t]@ by {
                        if t < i {
                            let j = choose|j: int|
                                0 <= j < entries.len() && (#[trigger] entries[j]).0 == keys@[t]@;
                            assert(next[j] == entries[j]);
                        } else {
                            assert(next[entries.len() as int].0 == keys@[t]@);
                        }
                    }
                    entries = next;
                }
                total = new_total;
            } else {
                proof {
                    assert(!self.older_keys().contains(key@));
                    assert forall|j: int| 0 <= j < entries.len() implies exists|t: int|
                        0 <= t < i + 1 && #[trigger] keys@[t]@ == (#[trigger] entries[j]).0 by {
                        let t = choose|t: int| 0 <= t < i && #[trigger] keys@[t]@ == entries[j].0;
                    }
                }
            }
            i = i + 1;
        }
        proof {
            assert forall|k: Seq<u8>| #[trigger] self.older_keys().contains(k) implies exists|
                j: int,
            | 0 <= j < entries.len() && (#[trigger] entries[j]).0 == k by {
                assert(self.key_directory().contains_key(k));
                let t = choose|t: int| 0 <= t < keys@.len() && #[trigger] keys@[t]@ == k;
                assert(self.older_keys().contains(keys@[t]@));
            }
            reveal(BitCaskHandler::merge_entries_complete);
        }
        Some(
            MergePlan {
                merged_file,
                data,
                hints,
                locations,
                entries: Ghost(entries),
                timestamp,
            },
        )
    }

    /// Carries out a merge that the data files already reflect: the merged
    /// data file, whose bytes are the plan's, takes the place of the older
    /// data files, whose paths are given back so that they can be removed;
    /// each merged key that the store still holds now lies in the merged
    /// file. The values that the store holds do not change.
    pub fn finish_merge(&mut self, plan: MergePlan) -> (removed: Vec<DataFile>)
        requires
            old(self).wf(),
        ensures
            final(self).wf(),
            removed@.map_values(|f: DataFile| f.file_path@) == old(self).file_ids().drop_last(),
            final(self).file_ids() == seq![plan.merged_file_id(), old(self).active_file_id()],
            final(self).logs() == seq![
                merge_rows(plan.entries(), plan.stamp()),
                old(self).logs().last(),
            ],
            final(self).key_directory() == old(self).key_directory().union_prefer_right(
                merge_directory(plan.entries(), plan.merged_file_id(), plan.stamp()).restrict(
                    old(self).key_directory().dom(),
                ),
            ),
            final(self).values() == old(self).values(),
            final(self).active_file_id() == old(self).active_file_id(),
            final(self).active_size() == old(self).active_size(),
            final(self).mode() == old(self).mode(),
            final(self).max_file_size() == old(self).max_file_size(),
            final(self).checksum_strict() == old(self).checksum_strict(),
            old(self).rows_intact() ==> final(self).rows_intact(),
            ({
                &&& old(self).consistent()
                &&& plan.stamp() != 0
                &&& old(self).file_ids().no_duplicates()
                &&& old(self).merge_entries_complete(old(self).logs().drop_last(), plan.entries())
            }) ==> final(self).consistent() && locations_hold(
                final(self).file_ids(),
                final(self).logs(),
                final(self).key_directory(),
                old(self).values(),
            ),
    {
        proof {
            use_type_invariant(&plan);
        }
        let ghost before = *self;
        let ghost entries = plan.entries@;
        let ghost merged = plan.merged_file@;
        let ghost stamp = plan.timestamp;
        let ghost old_dir = self.key_dir@;
        let mut key_dir = KeyDirectory::default();
        std::mem::swap(&mut key_dir, &mut self.key_dir);
        let mut i: usize = 0;
        while i < plan.locations.len()
            invariant
                i <= plan.locations@.len(),
                entries == plan.entries@,
                merged == plan.merged_file@,
                stamp == plan.timestamp,
                locations_match(plan.locations@, entries, merged, stamp),
                key_dir.wf(),
                key_dir@ == old_dir.union_prefer_right(
                    merge_directory(entries.take(i as int), merged, stamp).restrict(old_dir.dom()),
                ),
            decreases plan.locations@.len() - i,
        {
            let entry = &plan.locations[i];
            let ghost prev = key_dir@;
            let ghost md = merge_directory(entries.take(i as int), merged, stamp);
            let ghost md1 = merge_directory(entries.take(i + 1), merged, stamp);
            proof {
                assert(entries.take(i + 1).drop_last() == entries.take(i as int));
                assert(entries.take(i + 1).last() == entries[i as int]);
                assert(md1 == md.insert(entries[i as int].0, entry.1@));
            }
            if key_dir.get(entry.0.as_slice()).is_some() {
                let loc = BitCaskInMemoryValue {
                    file_id: vstd::slice::slice_to_vec(entry.1.file_id.as_slice()),
                    value_size: entry.1.value_size,
                    value_offset: entry.1.value_offset,
                    timestamp: entry.1.timestamp,
                };
                let _ = key_dir.put(entry.0.as_slice(), loc);
                assert(key_dir@ =~= old_dir.union_prefer_right(md1.restrict(old_dir.dom())));
            } else {
                assert(key_dir@ =~= old_dir.union_prefer_right(md1.restrict(old_dir.dom())));
            }
            i = i + 1;
        }
        assert(entries.take(i as int) == entries);
        self.key_dir = key_dir;
        let mut removed: Vec<DataFile> = Vec::new();
        removed.push(DataFile { file_path: vstd::slice::slice_to_vec(plan.merged_file.as_slice()) });
        std::mem::swap(&mut removed, &mut self.inactive_data_files);
        let ghost old_logs = before.logs@;
        let ghost new_logs = seq![plan.data@, old_logs.last()];
        self.logs = Ghost(new_logs);
        proof {
            assert(self.file_ids() =~= seq![merged, before.active_file_id()]);
            assert(before.file_ids().drop_last() == removed@.map_values(|f: DataFile| f.file_path@));
            assert(self.key_dir@.dom() =~= old_dir.dom());
            lemma_finish_merge_keeps_consistent(before, *self, entries, merged, stamp);
            if self.consistent() {
                lemma_read_gives_back_last_write(*self);
            }
        }
        removed
    }
}


/// Adding a key of `older_keys` that no entry has yet, with the value
/// stored at its location, keeps the entries read as a merge reads them.
proof fn lemma_merge_entries_push<State>(
    h: BitCaskHandler<State>,
    contents: Seq<Seq<u8>>,
    entries: Seq<(Seq<u8>, Seq<u8>)>,
    key: Seq<u8>,
    value: Seq<u8>,
)
    requires
        h.merge_entries_read(contents, entries),
        h.older_keys().contains(key),
        stored_value(h.file_ids().drop_last(), contents, h.key_directory()[key]) == Some(value),
        forall|j: int| 0 <= j < entries.len() ==> #[trigger] entries[j].0 != key,
    ensures
        h.merge_entries_read(contents, entries.push((key, value))),
{
    reveal(BitCaskHandler::merge_entries_read);
    let next = entries.push((key, value));
    assert forall|a: int, b: int| 0 <= a < b < next.len() implies #[trigger] next[a].0
        != #[trigger] next[b].0 by {
        assert(next[a] == entries[a]);
        if b < entries.len() {
            assert(next[b] == entries[b]);
        }
    }
    assert forall|j: int| 0 <= j < next.len() implies {
        &&& h.older_keys().contains((#[trigger] next[j]).0)
        &&& stored_value(h.file_ids().drop_last(), contents, h.key_directory()[next[j].0]) == Some(
            next[j].1,
        )
    } by {
        if j < entries.len() {
            assert(next[j] == entries[j]);
        }
    }
}


/// The entries that a merge reads from the older data files of a
/// consistent store, whose data files have distinct names, hold exactly
/// the value that the store holds for each key whose latest value lies in
/// an older file.
pub proof fn lemma_merge_reads_current_values(
    h: BitCaskHandler<BitCaskHandlerOpen>,
    contents: Seq<Seq<u8>>,
    entries: Seq<(Seq<u8>, Seq<u8>)>,
)
    requires
        h.consistent(),
        h.file_ids().no_duplicates(),
        contents == h.logs().drop_last(),
        h.merge_entries_complete(contents, entries),
    ensures
        merge_values(entries) == h.values().restrict(h.older_keys()),
{
    reveal(BitCaskHandler::merge_entries_complete);
    reveal(BitCaskHandler::merge_entries_read);
    let ids = h.file_ids();
    let logs = h.logs();
    let dir = h.key_directory();
    let vals = h.values();
    let older_ids = ids.drop_last();
    lemma_logs_match_files(h);
    lemma_replay_files_locations(ids, logs, h.checksum_strict());
    lemma_merge_values_of_distinct(entries);
    assert forall|j: int| 0 <= j < entries.len() implies (#[trigger] entries[j]).1
        == vals[entries[j].0] by {
        let k = entries[j].0;
        let e = dir[k];
        assert(h.older_keys().contains(k));
        assert(dir.contains_key(k));
        let i = choose|i: int|
            #![trigger ids[i]]
            0 <= i < logs.len() && i < ids.len() && ids[i] == e.file_id && e.value_size
                == vals[k].len() && e.value_offset + e.value_size <= logs[i].len()
                && logs[i].subrange(e.value_offset as int, e.value_offset + e.value_size)
                == vals[k];
        assert(i != ids.len() - 1);
        assert forall|t: int| 0 <= t < i implies older_ids[t] != e.file_id by {
            assert(older_ids[t] == ids[t]);
        }
        assert(older_ids[i] == ids[i]);
        assert(is_first_index(older_ids, e.file_id, i));
        let c = choose|c: int| is_first_index(older_ids, e.file_id, c);
        lemma_first_index_unique(older_ids, e.file_id, i, c);
        assert(contents[i] == logs[i]);
    }
    let target = vals.restrict(h.older_keys());
    assert forall|k: Seq<u8>| #[trigger] merge_values(entries).contains_key(k)
        == target.contains_key(k) by {
        if h.older_keys().contains(k) {
            let j = choose|j: int| 0 <= j < entries.len() && (#[trigger] entries[j]).0 == k;
        }
        if merge_values(entries).contains_key(k) {
            let j = choose|j: int| 0 <= j < entries.len() && #[trigger] entries[j].0 == k;
            assert(h.older_keys().contains(entries[j].0));
        }
    }
    assert forall|k: Seq<u8>| #[trigger] merge_values(entries).contains_key(k) implies merge_values(
        entries,
    )[k] == target[k] by {
        let j = choose|j: int| 0 <= j < entries.len() && #[trigger] entries[j].0 == k;
        assert(merge_values(entries)[entries[j].0] == entries[j].1);
    }
    assert(merge_values(entries) =~= target);
}


/// What `finish_merge` keeps: intact checksums, and the consistency of a
/// store whose merge read the values it holds and whose data files have
/// distinct names.
proof fn lemma_finish_merge_keeps_consistent(
    before: BitCaskHandler<BitCaskHandlerOpen>,
    after: BitCaskHandler<BitCaskHandlerOpen>,
    entries: Seq<(Seq<u8>, Seq<u8>)>,
    merged: Seq<u8>,
    stamp: u128,
)
    requires
        before.wf(),
        after.wf(),
        merge_rows(entries, stamp).len() <= u64::MAX,
        after.file_ids() == seq![merged, before.active_file_id()],
        after.logs() == seq![merge_rows(entries, stamp), before.logs().last()],
        after.key_directory() == before.key_directory().union_prefer_right(
            merge_directory(entries, merged, stamp).restrict(before.key_directory().dom()),
        ),
        after.values() == before.values(),
        after.active_size() == before.active_size(),
        after.checksum_strict() == before.checksum_strict(),
    ensures
        before.rows_intact() ==> after.rows_intact(),
        ({
            &&& before.consistent()
            &&& stamp != 0
            &&& before.file_ids().no_duplicates()
            &&& before.merge_entries_complete(before.logs().drop_last(), entries)
        }) ==> after.consistent(),
{
    let active = before.active_file_id();
    let strict = before.checksum_strict();
    let old_logs = before.logs();
    lemma_logs_match_files(before);
    lemma_merge_replay(entries, merged, stamp, strict);
    if before.rows_intact() {
        assert(log_checksums_hold(old_logs[old_logs.len() - 1]));
        assert forall|j: int| 0 <= j < after.logs().len() implies log_checksums_hold(
            #[trigger] after.logs()[j],
        ) by {
            if j == 1 {
                assert(after.logs()[j] == old_logs[old_logs.len() - 1]);
            }
        }
    }
    if before.consistent() && stamp != 0 && before.file_ids().no_duplicates()
        && before.merge_entries_complete(old_logs.drop_last(), entries) {
        lemma_merge_reads_current_values(before, old_logs.drop_last(), entries);
        let ids = before.file_ids();
        let older_ids = ids.drop_last();
        assert(older_ids.push(active) == ids);
        assert(old_logs.drop_last().push(old_logs.last()) == old_logs);
        assert(!older_ids.contains(active)) by {
            if older_ids.contains(active) {
                let t = choose|t: int| 0 <= t < older_ids.len() && older_ids[t] == active;
                assert(ids[t] == ids[ids.len() - 1]);
            }
        }
        let dir = replay_files(Map::empty(), ids, old_logs, strict);
        assert(Set::new(|k: Seq<u8>| dir.contains_key(k) && dir[k].file_id != active)
            =~= before.older_keys());
        lemma_merged_replay(
            older_ids,
            old_logs.drop_last(),
            active,
            old_logs.last(),
            entries,
            merged,
            stamp,
            strict,
        );
        assert(log_well_formed(old_logs[old_logs.len() - 1]));
        assert forall|j: int| 0 <= j < after.logs().len() implies log_well_formed(
            #[trigger] after.logs()[j],
        ) && after.logs()[j].len() <= u64::MAX by {
            if j == 1 {
                assert(after.logs()[j] == old_logs[old_logs.len() - 1]);
            }
        }
    }
}


/// The union of two sets of modes, as the `|` operator gives it, contains
/// each of them, and is contained in every set of modes that contains both.
pub proof fn lemma_mode_union_is_least(a: BitCaskHandlerOpenMode, b: BitCaskHandlerOpenMode)
    ensures
        a.bitor_spec(b).spec_contains(a),
        a.bitor_spec(b).spec_contains(b),
        forall|m: BitCaskHandlerOpenMode|
            m.spec_contains(a) && m.spec_contains(b) ==> #[trigger] m.spec_contains(a.bitor_spec(b)),
{
    let (x, y) = (a.0, b.0);
    let u = a.bitor_spec(b).0;
    assert(u == x | y);
    assert((x | y) & x == x) by (bit_vector);
    assert((x | y) & y == y) by (bit_vector);
    assert forall|m: BitCaskHandlerOpenMode|
        m.spec_contains(a) && m.spec_contains(b) implies #[trigger] m.spec_contains(
        a.bitor_spec(b),
    ) by {
        let z = m.0;
        assert(z & (x | y) == (x | y)) by (bit_vector)
            requires
                z & x == x,
                z & y == y,
        ;
    }
}

} // verus!
