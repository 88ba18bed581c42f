//! The on-disk formats: data rows and data hint entries.
//!
//! A data row is laid out as
//! `crc (4) | timestamp (16) | key_size (8) | value_size (8) | key | value`,
//! every integer big-endian; the checksum covers everything after it.
//! A hint entry is laid out as
//! `timestamp (16) | key_size (8) | value_size (8) | value_offset (8) | key`.

use vstd::prelude::*;

use crate::models::byte_buf::{bytes_as_slice, bytes_clone, bytes_copy_from_slice, bytes_from_vec, bytes_view};
use crate::models::crc::{calculate_crc32, crc32};
use crate::models::encoding::{
    be_u128, be_u32, be_u64, get_u128, get_u32, get_u64, lemma_be_u128_roundtrip,
    lemma_be_u32_roundtrip, lemma_be_u64_roundtrip, put_slice, put_u128, put_u32, put_u64,
    u128_of_be, u32_of_be, u64_of_be,
};
use crate::models::in_memory::{BitCaskInMemoryValue, InMemoryView};

verus! {

/// One record of a data file.
pub struct BitCaskDiskRow {
    pub crc: u32,
    pub timestamp: u128,
    pub key_size: u64,
    pub value_size: u64,
    pub key: bytes::Bytes,
    pub value: bytes::Bytes,
}

/// A data row as contracts speak of it.
pub struct DiskRowView {
    pub crc: u32,
    pub timestamp: u128,
    pub key_size: u64,
    pub value_size: u64,
    pub key: Seq<u8>,
    pub value: Seq<u8>,
}

impl View for BitCaskDiskRow {
    type V = DiskRowView;

    open spec fn view(&self) -> DiskRowView {
        DiskRowView {
            crc: self.crc,
            timestamp: self.timestamp,
            key_size: self.key_size,
            value_size: self.value_size,
            key: bytes_view(self.key),
            value: bytes_view(self.value),
        }
    }
}

/// The bytes that the checksum of a row covers.
pub open spec fn row_payload(
    timestamp: u128,
    key_size: u64,
    value_size: u64,
    key: Seq<u8>,
    value: Seq<u8>,
) -> Seq<u8> {
    be_u128(timestamp) + be_u64(key_size) + be_u64(value_size) + key + value
}

impl DiskRowView {
    /// The bytes that stand for this row in a data file.
    pub open spec fn encode(self) -> Seq<u8> {
        be_u32(self.crc) + row_payload(
            self.timestamp,
            self.key_size,
            self.value_size,
            self.key,
            self.value,
        )
    }

    /// The recorded sizes are those of the key and the value.
    pub open spec fn sizes_match(self) -> bool {
        &&& self.key_size == self.key.len()
        &&& self.value_size == self.value.len()
    }

    /// The number of bytes that the row takes in a data file.
    pub open spec fn encoded_len(self) -> nat {
        (36 + self.key_size + self.value_size) as nat
    }
}

/// The row's checksum is that of its payload.
pub open spec fn checksum_holds(r: DiskRowView) -> bool {
    r.crc == crc32(row_payload(r.timestamp, r.key_size, r.value_size, r.key, r.value))
}

/// The row that stores `value` under `key`, written at time `timestamp`.
pub open spec fn fresh_row(key: Seq<u8>, value: Seq<u8>, timestamp: u128) -> DiskRowView {
    DiskRowView {
        crc: crc32(row_payload(timestamp, key.len() as u64, value.len() as u64, key, value)),
        timestamp,
        key_size: key.len() as u64,
        value_size: value.len() as u64,
        key,
        value,
    }
}

/// The row at the start of `s`, if `s` begins with a whole row.
pub open spec fn parse_row(s: Seq<u8>) -> Option<DiskRowView> {
    if s.len() < 36 {
        None
    } else {
        let key_size = u64_of_be(s.subrange(20, s.len() as int));
        let value_size = u64_of_be(s.subrange(28, s.len() as int));
        if s.len() < 36 + key_size + value_size {
            None
        } else {
            Some(
                DiskRowView {
                    crc: u32_of_be(s),
                    timestamp: u128_of_be(s.subrange(4, s.len() as int)),
                    key_size,
                    value_size,
                    key: s.subrange(36, 36 + key_size),
                    value: s.subrange(36 + key_size, 36 + key_size + value_size),
                },
            )
        }
    }
}

impl BitCaskDiskRow {
    /// The row that stores `value` under `key`, stamped with `timestamp`
    /// (milliseconds since the Unix epoch).
    #[must_use]
    pub fn new(key: &[u8], value: &[u8], timestamp: u128) -> (row: Self)
        ensures
            row@ == fresh_row(key@, value@, timestamp),
    {
        let key_size = key.len() as u64;
        let value_size = value.len() as u64;
        let mut crc_payload: Vec<u8> = Vec::new();
        put_u128(&mut crc_payload, timestamp);
        put_u64(&mut crc_payload, key_size);
        put_u64(&mut crc_payload, value_size);
        put_slice(&mut crc_payload, key);
        put_slice(&mut crc_payload, value);
        let crc = calculate_crc32(crc_payload.as_slice());
        BitCaskDiskRow {
            crc,
            timestamp,
            key: bytes_copy_from_slice(key),
            key_size,
            value: bytes_copy_from_slice(value),
            value_size,
        }
    }

    /// Whether the row's checksum is that of its payload.
    pub fn checksum_matches(&self) -> (r: bool)
        ensures
            r == checksum_holds(self@),
            r == (self.crc == crc32(self@.encode().subrange(4, self@.encode().len() as int))),
    {
        let mut payload: Vec<u8> = Vec::new();
        put_u128(&mut payload, self.timestamp);
        put_u64(&mut payload, self.key_size);
        put_u64(&mut payload, self.value_size);
        put_slice(&mut payload, bytes_as_slice(&self.key));
        put_slice(&mut payload, bytes_as_slice(&self.value));
        assert(self@.encode().subrange(4, self@.encode().len() as int) =~= payload@);
        calculate_crc32(payload.as_slice()) == self.crc
    }

    /// The bytes that stand for this row in a data file.
    #[must_use]
    pub fn to_bytes(&self) -> (b: bytes::Bytes)
        ensures
            bytes_view(b) == self@.encode(),
    {
        let mut buf: Vec<u8> = Vec::new();
        put_u32(&mut buf, self.crc);
        put_u128(&mut buf, self.timestamp);
        put_u64(&mut buf, self.key_size);
        put_u64(&mut buf, self.value_size);
        put_slice(&mut buf, bytes_as_slice(&self.key));
        put_slice(&mut buf, bytes_as_slice(&self.value));
        bytes_from_vec(buf)
    }

    /// Reads the row at the start of `value`, and the number of bytes it
    /// takes there.
    pub fn try_from(value: &[u8]) -> (r: Result<(Self, usize), ()>)
        requires
            parse_row(value@) is Some,
        ensures
            r matches Ok((row, n)) && row@ == parse_row(value@).unwrap() && n
                == row@.encoded_len(),
    {
        let len = value.len();
        assert(len == value@.len());
        let crc = get_u32(value, 0);
        assert(value@.subrange(0, value@.len() as int) == value@);
        let timestamp = get_u128(value, 4);
        let key_size = get_u64(value, 20);
        let value_size = get_u64(value, 28);
        let key_end: usize = 36 + key_size as usize;
        let end: usize = key_end + value_size as usize;
        let key = bytes_copy_from_slice(vstd::slice::slice_subrange(value, 36, key_end));
        let value_bytes = bytes_copy_from_slice(vstd::slice::slice_subrange(value, key_end, end));
        Ok((BitCaskDiskRow { crc, timestamp, key_size, value_size, key, value: value_bytes }, end))
    }
}

/// Decoding a row gives back the row that was encoded, and tells how many
/// bytes it took, whatever follows it.
pub proof fn lemma_row_roundtrip(r: DiskRowView, rest: Seq<u8>)
    requires
        r.sizes_match(),
    ensures
        r.encode().len() == r.encoded_len(),
        parse_row(r.encode() + rest) == Some(r),
{
    let p = row_payload(r.timestamp, r.key_size, r.value_size, r.key, r.value);
    let s = r.encode() + rest;
    let tail = be_u64(r.value_size) + r.key + r.value + rest;
    lemma_be_u32_roundtrip(r.crc, p + rest);
    lemma_be_u128_roundtrip(r.timestamp, be_u64(r.key_size) + tail);
    lemma_be_u64_roundtrip(r.key_size, tail);
    lemma_be_u64_roundtrip(r.value_size, r.key + r.value + rest);
    assert(s == be_u32(r.crc) + (p + rest));
    assert(s.subrange(4, s.len() as int) == be_u128(r.timestamp) + (be_u64(r.key_size) + tail));
    assert(s.subrange(20, s.len() as int) == be_u64(r.key_size) + tail);
    assert(s.subrange(28, s.len() as int) == be_u64(r.value_size) + (r.key + r.value + rest));
    assert(s.subrange(36, 36 + r.key_size) == r.key);
    assert(s.subrange(36 + r.key_size, 36 + r.key_size + r.value_size) == r.value);
}

/// An entry of a data hint file: where the value of a key lies in the data
/// file that the hint file accompanies.
#[derive(Debug)]
pub struct DataHintEntry {
    pub timestamp: u128,
    pub key_size: u64,
    pub value_size: u64,
    pub value_offset: u64,
    pub key: bytes::Bytes,
}

/// A hint entry as contracts speak of it.
pub struct HintView {
    pub timestamp: u128,
    pub key_size: u64,
    pub value_size: u64,
    pub value_offset: u64,
    pub key: Seq<u8>,
}

impl View for DataHintEntry {
    type V = HintView;

    open spec fn view(&self) -> HintView {
        HintView {
            timestamp: self.timestamp,
            key_size: self.key_size,
            value_size: self.value_size,
            value_offset: self.value_offset,
            key: bytes_view(self.key),
        }
    }
}

impl HintView {
    /// The bytes that stand for this entry in a hint file.
    pub open spec fn encode(self) -> Seq<u8> {
        be_u128(self.timestamp) + be_u64(self.key_size) + be_u64(self.value_size) + be_u64(
            self.value_offset,
        ) + self.key
    }

    /// The number of bytes that the entry takes in a hint file.
    pub open spec fn encoded_len(self) -> nat {
        (40 + self.key_size) as nat
    }
}

/// The hint entry at the start of `s`, if `s` begins with a whole entry.
pub open spec fn parse_hint(s: Seq<u8>) -> Option<HintView> {
    if s.len() < 40 {
        None
    } else {
        let key_size = u64_of_be(s.subrange(16, s.len() as int));
        if s.len() < 40 + key_size {
            None
        } else {
            Some(
                HintView {
                    timestamp: u128_of_be(s),
                    key_size,
                    value_size: u64_of_be(s.subrange(24, s.len() as int)),
                    value_offset: u64_of_be(s.subrange(32, s.len() as int)),
                    key: s.subrange(40, 40 + key_size),
                },
            )
        }
    }
}

impl DataHintEntry {
    /// The hint for the row `disk_entry`, whose value lies at `value_offset`.
    pub fn from_disk_entry(disk_entry: &BitCaskDiskRow, value_offset: u64) -> (h: Self)
        ensures
            h@ == (HintView {
                timestamp: disk_entry.timestamp,
                key_size: disk_entry.key_size,
                value_size: disk_entry.value_size,
                value_offset,
                key: disk_entry@.key,
            }),
    {
        DataHintEntry {
            timestamp: disk_entry.timestamp,
            key_size: disk_entry.key_size,
            value_size: disk_entry.value_size,
            value_offset,
            key: bytes_clone(&disk_entry.key),
        }
    }

    /// The bytes that stand for this entry in a hint file.
    pub fn to_bytes(&self) -> (b: bytes::Bytes)
        ensures
            bytes_view(b) == self@.encode(),
    {
        let mut buf: Vec<u8> = Vec::new();
        put_u128(&mut buf, self.timestamp);
        put_u64(&mut buf, self.key_size);
        put_u64(&mut buf, self.value_size);
        put_u64(&mut buf, self.value_offset);
        put_slice(&mut buf, bytes_as_slice(&self.key));
        bytes_from_vec(buf)
    }

    /// Where the value that this entry describes lies, in the data file
    /// whose canonical path is `file_id`.
    pub fn to_in_memory_entry(&self, file_id: &[u8]) -> (r: BitCaskInMemoryValue)
        ensures
            r@ == (InMemoryView {
                file_id: file_id@,
                value_size: self.value_size,
                value_offset: self.value_offset,
                timestamp: self.timestamp,
            }),
    {
        BitCaskInMemoryValue {
            file_id: vstd::slice::slice_to_vec(file_id),
            value_size: self.value_size,
            value_offset: self.value_offset,
            timestamp: self.timestamp,
        }
    }

    /// Reads the hint entry at the start of `value`, and the number of bytes
    /// it takes there.
    pub fn try_from(value: &[u8]) -> (r: Result<(Self, usize), ()>)
        requires
            parse_hint(value@) is Some,
        ensures
            r matches Ok((h, n)) && h@ == parse_hint(value@).unwrap() && n == h@.encoded_len(),
    {
        let len = value.len();
        assert(len == value@.len());
        let timestamp = get_u128(value, 0);
        assert(value@.subrange(0, value@.len() as int) == value@);
        let key_size = get_u64(value, 16);
        let value_size = get_u64(value, 24);
        let value_offset = get_u64(value, 32);
        let end: usize = 40 + key_size as usize;
        let key = bytes_copy_from_slice(vstd::slice::slice_subrange(value, 40, end));
        Ok((DataHintEntry { timestamp, key_size, value_size, value_offset, key }, end))
    }
}

/// Decoding a hint entry gives back the entry that was encoded, and tells
/// how many bytes it took, whatever follows it.
pub proof fn lemma_hint_roundtrip(h: HintView, rest: Seq<u8>)
    requires
        h.key_size == h.key.len(),
    ensures
        h.encode().len() == h.encoded_len(),
        parse_hint(h.encode() + rest) == Some(h),
{
    let s = h.encode() + rest;
    let t3 = be_u64(h.value_offset) + h.key + rest;
    let t2 = be_u64(h.value_size) + t3;
    let t1 = be_u64(h.key_size) + t2;
    lemma_be_u128_roundtrip(h.timestamp, t1);
    lemma_be_u64_roundtrip(h.key_size, t2);
    lemma_be_u64_roundtrip(h.value_size, t3);
    lemma_be_u64_roundtrip(h.value_offset, h.key + rest);
    assert(s == be_u128(h.timestamp) + t1);
    assert(s.subrange(16, s.len() as int) == t1);
    assert(s.subrange(24, s.len() as int) == t2);
    assert(s.subrange(32, s.len() as int) == t3);
    assert(s.subrange(40, 40 + h.key_size) == h.key);
}


/// A row passes the checksum check exactly when its stored checksum is the
/// one that a fresh row with the same key, value and timestamp carries,
/// whatever the sizes of its key and value; so a fresh row always passes.
pub proof fn lemma_checksum_holds_iff_fresh(r: DiskRowView)
    requires
        r.sizes_match(),
    ensures
        checksum_holds(r) <==> r.crc == fresh_row(r.key, r.value, r.timestamp).crc,
        checksum_holds(fresh_row(r.key, r.value, r.timestamp)),
{
}

} // verus!
