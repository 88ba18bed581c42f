use bitcask::models::disk_row::BitCaskDiskRow;
use bitcask::models::handler::{
    is_well_formed_log, populate_in_memory_hash_map_with_file_data, populate_in_memory_table_data,
    BitCaskHandler, BitCaskHandlerOpenMode, BitCaskHandlerOpenOpts, BitCaskHandlerPutError,
    WriteKind,
};
use bitcask::models::in_memory::BitCaskInMemoryValue;
use bitcask::models::key_dir::KeyDirectory;
use bitcask::models::segments::{ActiveDataFile, DataFile};

fn row_bytes(key: &[u8], value: &[u8], ts: u128) -> Vec<u8> {
    BitCaskDiskRow::new(key, value, ts).to_bytes().to_vec()
}

fn tombstone(key: &[u8]) -> Vec<u8> {
    let mut row = BitCaskDiskRow::new(key, b"", 5);
    row.timestamp = 0;
    row.to_bytes().to_vec()
}

fn opts(mode: BitCaskHandlerOpenMode, max: u64) -> BitCaskHandlerOpenOpts {
    BitCaskHandlerOpenOpts { max_file_size_in_bytes: max, mode, hintfile_checksum_strict: false }
}

fn entry(file: &[u8], size: u64, offset: u64, ts: u128) -> BitCaskInMemoryValue {
    BitCaskInMemoryValue { file_id: file.to_vec(), value_size: size, value_offset: offset, timestamp: ts }
}

#[test]
fn mode_union_contains_both() {
    let rw = BitCaskHandlerOpenMode::READ() | BitCaskHandlerOpenMode::WRITE();
    assert!(rw.contains(BitCaskHandlerOpenMode::READ()));
    assert!(rw.contains(BitCaskHandlerOpenMode::WRITE()));
    assert_eq!(rw.0, 3);
}

#[test]
fn read_mode_does_not_contain_write() {
    let r = BitCaskHandlerOpenMode::READ();
    assert!(r.contains(BitCaskHandlerOpenMode::READ()));
    assert!(!r.contains(BitCaskHandlerOpenMode::WRITE()));
    assert!(r.contains(BitCaskHandlerOpenMode(0)));
}

#[test]
fn key_directory_put_get_delete() {
    let mut kd = KeyDirectory::default();
    assert!(kd.get(b"a").is_none());
    assert!(kd.put(b"a", entry(b"f", 1, 2, 3)).is_ok());
    assert!(kd.put(b"b", entry(b"f", 4, 5, 6)).is_ok());
    assert_eq!(kd.get(b"a").unwrap().value_offset, 2);
    assert!(kd.put(b"a", entry(b"g", 7, 8, 9)).is_ok());
    let a = kd.get(b"a").unwrap();
    assert_eq!((a.file_id.clone(), a.value_size, a.value_offset, a.timestamp), (b"g".to_vec(), 7, 8, 9));
    assert_eq!(kd.get(b"b").unwrap().value_offset, 5);
    let removed = kd.delete(b"a").unwrap();
    assert_eq!(removed.value_offset, 8);
    assert!(kd.get(b"a").is_none());
    assert!(kd.delete(b"a").is_none());
    assert_eq!(kd.get(b"b").unwrap().value_size, 4);
}

#[test]
fn key_directory_keys_are_distinct() {
    let mut kd = KeyDirectory::default();
    kd.put(b"x", entry(b"f", 1, 1, 1)).unwrap();
    kd.put(b"y", entry(b"f", 1, 1, 1)).unwrap();
    kd.put(b"x", entry(b"f", 2, 2, 2)).unwrap();
    let mut keys: Vec<Vec<u8>> = kd.keys().iter().map(|k| k.to_vec()).collect();
    keys.sort();
    assert_eq!(keys, vec![b"x".to_vec(), b"y".to_vec()]);
}

#[test]
fn well_formed_logs() {
    assert!(is_well_formed_log(&[]));
    let mut log = row_bytes(b"a", b"1", 1);
    log.extend(row_bytes(b"b", b"22", 2));
    assert!(is_well_formed_log(&log));
    assert!(!is_well_formed_log(&log[..log.len() - 1]));
    assert!(!is_well_formed_log(&[0u8; 35]));
}

#[test]
fn populate_records_value_offsets() {
    let mut log = row_bytes(b"a", b"1", 1);
    log.extend(row_bytes(b"b", b"22", 2));
    let mut kd = KeyDirectory::default();
    populate_in_memory_hash_map_with_file_data(&mut kd, b"f1", &log, false);
    let a = kd.get(b"a").unwrap();
    assert_eq!((a.value_size, a.value_offset, a.timestamp), (1, 37, 1));
    assert_eq!(&log[37..38], b"1");
    let b = kd.get(b"b").unwrap();
    assert_eq!((b.value_size, b.value_offset, b.timestamp), (2, 38 + 37, 2));
    assert_eq!(&log[75..77], b"22");
    assert_eq!(b.file_id, b"f1".to_vec());
}

#[test]
fn populate_applies_tombstones_and_overwrites() {
    let mut log = row_bytes(b"a", b"1", 1);
    log.extend(row_bytes(b"b", b"2", 2));
    log.extend(tombstone(b"a"));
    log.extend(row_bytes(b"b", b"33", 3));
    let mut kd = KeyDirectory::default();
    populate_in_memory_hash_map_with_file_data(&mut kd, b"f1", &log, false);
    assert!(kd.get(b"a").is_none());
    let b = kd.get(b"b").unwrap();
    assert_eq!(b.value_size, 2);
    assert_eq!(b.timestamp, 3);
    let off = b.value_offset as usize;
    assert_eq!(&log[off..off + 2], b"33");
}

#[test]
fn populate_several_files_in_order() {
    let f1 = row_bytes(b"k", b"old", 1);
    let f2 = row_bytes(b"k", b"new", 2);
    let files = vec![DataFile::from(b"f1".to_vec()), DataFile::from(b"f2".to_vec())];
    let kd = populate_in_memory_table_data(&files, &[f1, f2], false);
    let k = kd.get(b"k").unwrap();
    assert_eq!(k.file_id, b"f2".to_vec());
    assert_eq!(k.timestamp, 2);
}

#[test]
fn open_rebuilds_key_directory() {
    let mut f1 = row_bytes(b"a", b"1", 1);
    f1.extend(row_bytes(b"b", b"2", 2));
    let f2 = tombstone(b"b");
    let h = BitCaskHandler::open(
        opts(BitCaskHandlerOpenMode::READ(), 1000),
        vec![DataFile::from(b"f1".to_vec()), DataFile::from(b"f2".to_vec())],
        vec![f1, f2],
        ActiveDataFile::new(b"f3".to_vec()),
    );
    assert_eq!(h.get(b"a").unwrap().value_offset, 37);
    assert!(h.get(b"b").is_none());
    assert_eq!(h.active_data_file().current_file_size, 0);
    let keys = h.list_keys();
    assert_eq!(keys.len(), 1);
    assert_eq!(&keys[0][..], b"a");
}

#[test]
fn put_without_write_mode_fails() {
    let h = BitCaskHandler::open(opts(BitCaskHandlerOpenMode::READ(), 1000), vec![], vec![], ActiveDataFile::new(b"f".to_vec()));
    match h.put(b"k", b"v", 1000) {
        Err(BitCaskHandlerPutError::MissingWritePermission(m)) => assert_eq!(m.0, 1),
        _ => panic!("expected a permission error"),
    }
}

#[test]
fn put_then_finish_records_value_location() {
    let mut h = BitCaskHandler::open(opts(BitCaskHandlerOpenMode::WRITE(), 1000), vec![], vec![], ActiveDataFile::new(b"f".to_vec()));
    let p = h.put(b"hola", b"mundo", 1000).unwrap();
    assert!(matches!(p.kind, WriteKind::Put));
    assert!(!p.rotate);
    assert_eq!(p.bytes.len(), 45);
    assert!(h.get(b"hola").is_none());
    h.finish_write(&p, p.bytes.len() as u64);
    let v = h.get(b"hola").unwrap();
    assert_eq!(v.value_offset, 40);
    assert_eq!(v.value_size, 5);
    assert_eq!(&p.bytes[40..45], b"mundo");
    assert_eq!(h.active_data_file().current_file_size, 45);
    let (row, n) = BitCaskDiskRow::try_from(&p.bytes).unwrap();
    assert_eq!(n, 45);
    assert_eq!(row.timestamp, 1000);
    assert_eq!(p.timestamp, 1000);
}

#[test]
fn put_asks_for_rotation_past_max_size() {
    let mut h = BitCaskHandler::open(opts(BitCaskHandlerOpenMode::WRITE(), 50), vec![], vec![], ActiveDataFile::new(b"f".to_vec()));
    let p = h.put(b"a", b"12345678", 1000).unwrap();
    assert!(!p.rotate);
    h.finish_write(&p, p.bytes.len() as u64);
    let q = h.put(b"b", b"x", 1000).unwrap();
    assert!(q.rotate);
    h.set_new_active_file(ActiveDataFile::new(b"g".to_vec()));
    assert_eq!(h.active_data_file().file_path, b"g".to_vec());
    assert_eq!(h.active_data_file().current_file_size, 0);
    h.finish_write(&q, q.bytes.len() as u64);
    let b = h.get(b"b").unwrap();
    assert_eq!(b.file_id, b"g".to_vec());
    assert_eq!(b.value_offset, 37);
    let a = h.get(b"a").unwrap();
    assert_eq!(a.file_id, b"f".to_vec());
}

#[test]
fn partial_write_counts_written_bytes() {
    let mut h = BitCaskHandler::open(opts(BitCaskHandlerOpenMode::WRITE(), 1000), vec![], vec![], ActiveDataFile::new(b"f".to_vec()));
    let p = h.put(b"k", b"v", 1000).unwrap();
    h.finish_write(&p, 30);
    assert_eq!(h.active_data_file().current_file_size, 30);
    assert_eq!(h.get(b"k").unwrap().value_offset, 29);
}

#[test]
fn delete_present_key_gives_tombstone() {
    let mut h = BitCaskHandler::open(opts(BitCaskHandlerOpenMode::WRITE(), 1000), vec![], vec![], ActiveDataFile::new(b"f".to_vec()));
    let p = h.put(b"k", b"v", 1000).unwrap();
    h.finish_write(&p, p.bytes.len() as u64);
    let d = h.delete(b"k", 77).unwrap();
    assert!(matches!(d.kind, WriteKind::Delete));
    assert!(h.get(b"k").is_none());
    let (row, n) = BitCaskDiskRow::try_from(&d.bytes).unwrap();
    assert_eq!(n, 37);
    assert_eq!(row.timestamp, 0);
    assert_eq!(&row.key[..], b"k");
    assert_eq!(row.value_size, 0);
    assert_eq!(row.crc, BitCaskDiskRow::new(b"k", b"", 77).crc);
    h.finish_write(&d, d.bytes.len() as u64);
    assert_eq!(h.active_data_file().current_file_size, 38 + 37);
    assert!(h.get(b"k").is_none());
}

#[test]
fn delete_absent_key_writes_nothing() {
    let mut h = BitCaskHandler::open(opts(BitCaskHandlerOpenMode::READ(), 1000), vec![], vec![], ActiveDataFile::new(b"f".to_vec()));
    assert!(h.delete(b"nope", 77).is_none());
    assert_eq!(h.active_data_file().current_file_size, 0);
}

#[test]
fn written_rows_replay_to_the_same_directory() {
    let mut h = BitCaskHandler::open(opts(BitCaskHandlerOpenMode::WRITE(), 1000), vec![], vec![], ActiveDataFile::new(b"f".to_vec()));
    let mut file: Vec<u8> = Vec::new();
    for (k, v) in [(&b"a"[..], &b"1"[..]), (b"b", b"22"), (b"a", b"333")] {
        let p = h.put(k, v, 1000).unwrap();
        file.extend_from_slice(&p.bytes);
        h.finish_write(&p, p.bytes.len() as u64);
    }
    let d = h.delete(b"b", 77).unwrap();
    file.extend_from_slice(&d.bytes);
    h.finish_write(&d, d.bytes.len() as u64);
    let mut kd = KeyDirectory::default();
    populate_in_memory_hash_map_with_file_data(&mut kd, b"f", &file, true);
    let live = h.get(b"a").unwrap();
    let replayed = kd.get(b"a").unwrap();
    assert_eq!(live.value_offset, replayed.value_offset);
    assert_eq!(live.value_size, replayed.value_size);
    assert_eq!(live.timestamp, replayed.timestamp);
    assert!(kd.get(b"b").is_none());
    let off = live.value_offset as usize;
    assert_eq!(&file[off..off + 3], b"333");
}

#[test]
fn close_read_only_store() {
    let h = BitCaskHandler::open(opts(BitCaskHandlerOpenMode::READ(), 1000), vec![], vec![], ActiveDataFile::new(b"f".to_vec()));
    let closed = h.close().unwrap();
    assert_eq!(closed.opts().max_file_size_in_bytes, 1000);
}

/// Plays the part of the disk: file name to bytes, in creation order.
struct Disk {
    files: Vec<(Vec<u8>, Vec<u8>)>,
}

impl Disk {
    fn file(&mut self, id: &[u8]) -> &mut Vec<u8> {
        &mut self.files.iter_mut().find(|(f, _)| f == id).unwrap().1
    }

    fn read(&self, v: &BitCaskInMemoryValue) -> Vec<u8> {
        let bytes = &self.files.iter().find(|(f, _)| *f == v.file_id).unwrap().1;
        let off = v.value_offset as usize;
        bytes[off..off + v.value_size as usize].to_vec()
    }
}

fn apply(
    h: &mut BitCaskHandler<bitcask::models::handler::BitCaskHandlerOpen>,
    disk: &mut Disk,
    p: &bitcask::models::handler::PendingWrite,
    next_file: &mut u8,
) {
    if p.rotate {
        let name = vec![b'f', *next_file];
        *next_file += 1;
        disk.files.push((name.clone(), Vec::new()));
        h.set_new_active_file(ActiveDataFile::new(name));
    }
    let active = h.active_data_file().file_path.clone();
    disk.file(&active).extend_from_slice(&p.bytes);
    h.finish_write(p, p.bytes.len() as u64);
}

#[test]
fn reads_give_back_last_writes_across_rotations_and_reopen() {
    let mut disk = Disk { files: vec![(b"f0".to_vec(), Vec::new())] };
    let mut next_file = b'1';
    let mut h = BitCaskHandler::open(opts(BitCaskHandlerOpenMode::WRITE(), 100), vec![], vec![], ActiveDataFile::new(b"f0".to_vec()));
    let ops: Vec<(&[u8], Option<&[u8]>)> = vec![
        (b"alpha", Some(b"one")),
        (b"beta", Some(b"two")),
        (b"alpha", Some(b"three")),
        (b"gamma", Some(b"a longer value that forces a new file")),
        (b"beta", None),
        (b"delta", Some(b"4")),
        (b"gamma", Some(b"g")),
        (b"missing", None),
    ];
    let mut ts = 10u128;
    for (k, v) in ops {
        ts += 1;
        match v {
            Some(v) => {
                let p = h.put(k, v, ts).unwrap();
                apply(&mut h, &mut disk, &p, &mut next_file);
            }
            None => {
                if let Some(p) = h.delete(k, ts) {
                    apply(&mut h, &mut disk, &p, &mut next_file);
                }
            }
        }
    }
    assert!(disk.files.len() > 1);
    let expected: Vec<(&[u8], Option<&[u8]>)> = vec![
        (b"alpha", Some(b"three")),
        (b"beta", None),
        (b"gamma", Some(b"g")),
        (b"delta", Some(b"4")),
        (b"missing", None),
    ];
    for (k, v) in &expected {
        match v {
            Some(v) => assert_eq!(disk.read(h.get(k).unwrap()), v.to_vec()),
            None => assert!(h.get(k).is_none()),
        }
    }

    let reopened = BitCaskHandler::open(
        opts(BitCaskHandlerOpenMode::READ(), 100),
        disk.files.iter().map(|(f, _)| DataFile::from(f.clone())).collect(),
        disk.files.iter().map(|(_, c)| c.clone()).collect(),
        ActiveDataFile::new(b"fresh".to_vec()),
    );
    for (k, v) in &expected {
        match v {
            Some(v) => {
                let live = h.get(k).unwrap();
                let back = reopened.get(k).unwrap();
                assert_eq!((live.file_id.clone(), live.value_offset, live.value_size), (back.file_id.clone(), back.value_offset, back.value_size));
                assert_eq!(disk.read(back), v.to_vec());
            }
            None => assert!(reopened.get(k).is_none()),
        }
    }
    assert_eq!(reopened.list_keys().len(), 3);
}

fn corrupt_row(key: &[u8], value: &[u8], ts: u128) -> Vec<u8> {
    let mut bytes = row_bytes(key, value, ts);
    bytes[0] ^= 0xff;
    bytes
}

#[test]
fn checksum_matches_detects_corruption() {
    let good = BitCaskDiskRow::new(b"k", b"v", 3);
    assert!(good.checksum_matches());
    let bytes = corrupt_row(b"k", b"v", 3);
    let (bad, _) = BitCaskDiskRow::try_from(&bytes).unwrap();
    assert!(!bad.checksum_matches());
}

#[test]
fn strict_populate_leaves_out_corrupt_rows() {
    let mut log = row_bytes(b"a", b"1", 1);
    log.extend(corrupt_row(b"a", b"2", 2));
    log.extend(corrupt_row(b"b", b"3", 3));
    let mut strict = KeyDirectory::default();
    populate_in_memory_hash_map_with_file_data(&mut strict, b"f", &log, true);
    let a = strict.get(b"a").unwrap();
    assert_eq!((a.value_offset, a.timestamp), (37, 1));
    assert!(strict.get(b"b").is_none());
    let mut lax = KeyDirectory::default();
    populate_in_memory_hash_map_with_file_data(&mut lax, b"f", &log, false);
    assert_eq!(lax.get(b"a").unwrap().timestamp, 2);
    assert!(lax.get(b"b").is_some());
}

#[test]
fn strict_open_still_applies_deletions() {
    let mut f1 = row_bytes(b"a", b"1", 1);
    f1.extend(row_bytes(b"b", b"2", 2));
    f1.extend(tombstone(b"a"));
    f1.extend(corrupt_row(b"b", b"bad", 4));
    let mut o = opts(BitCaskHandlerOpenMode::READ(), 1000);
    o.hintfile_checksum_strict = true;
    let h = BitCaskHandler::open(o, vec![DataFile::from(b"f1".to_vec())], vec![f1], ActiveDataFile::new(b"f2".to_vec()));
    assert!(h.get(b"a").is_none());
    let b = h.get(b"b").unwrap();
    assert_eq!(b.timestamp, 2);
    assert_eq!(b.value_offset, 38 + 37);
}

#[test]
fn rotation_puts_value_in_the_new_file_at_header_plus_key() {
    let mut h = BitCaskHandler::open(opts(BitCaskHandlerOpenMode::WRITE(), 40), vec![], vec![], ActiveDataFile::new(b"f".to_vec()));
    let p = h.put(b"one", b"1", 5).unwrap();
    h.finish_write(&p, p.bytes.len() as u64);
    let q = h.put(b"two", b"22", 6).unwrap();
    assert!(q.rotate);
    h.set_new_active_file(ActiveDataFile::new(b"g".to_vec()));
    h.finish_write(&q, q.bytes.len() as u64);
    let v = h.get(b"two").unwrap();
    assert_eq!(v.file_id, b"g".to_vec());
    assert_eq!(v.value_offset, 36 + 3);
    assert_eq!(h.active_data_file().current_file_size, q.bytes.len() as u64);
}

#[test]
fn deleting_absent_key_twice_changes_nothing() {
    let mut h = BitCaskHandler::open(opts(BitCaskHandlerOpenMode::WRITE(), 1000), vec![], vec![], ActiveDataFile::new(b"f".to_vec()));
    let p = h.put(b"k", b"v", 5).unwrap();
    h.finish_write(&p, p.bytes.len() as u64);
    assert!(h.delete(b"x", 9).is_none());
    assert!(h.delete(b"x", 10).is_none());
    assert_eq!(h.active_data_file().current_file_size, p.bytes.len() as u64);
    assert_eq!(h.get(b"k").unwrap().value_offset, 36 + 1);
}
