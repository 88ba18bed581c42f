//! What the key directory remembers of each key: where its latest value lies.

use vstd::prelude::*;

use crate::models::disk_row::BitCaskDiskRow;

verus! {

/// The location of a key's latest value: the data file (by its canonical
/// path, as bytes), the value's length and its offset in that file, and the
/// timestamp of the row that wrote it.
#[derive(Debug, Clone)]
pub struct BitCaskInMemoryValue {
    pub file_id: Vec<u8>,
    pub value_size: u64,
    pub value_offset: u64,
    pub timestamp: u128,
}

/// The location of a value, as contracts speak of it.
pub struct InMemoryView {
    pub file_id: Seq<u8>,
    pub value_size: u64,
    pub value_offset: u64,
    pub timestamp: u128,
}

impl View for BitCaskInMemoryValue {
    type V = InMemoryView;

    open spec fn view(&self) -> InMemoryView {
        InMemoryView {
            file_id: self.file_id@,
            value_size: self.value_size,
            value_offset: self.value_offset,
            timestamp: self.timestamp,
        }
    }
}

impl BitCaskInMemoryValue {
    /// The location of the value of `disk_entry`, which lies at
    /// `value_offset` in the data file `file_path`.
    pub fn from_disk_entry(disk_entry: &BitCaskDiskRow, file_path: &[u8], value_offset: u64) -> (r:
        Self)
        ensures
            r@ == (InMemoryView {
                file_id: file_path@,
                value_size: disk_entry.value_size,
                value_offset,
                timestamp: disk_entry.timestamp,
            }),
    {
        BitCaskInMemoryValue {
            file_id: vstd::slice::slice_to_vec(file_path),
            value_size: disk_entry.value_size,
            value_offset,
            timestamp: disk_entry.timestamp,
        }
    }
}

} // verus!
