use bitcask::models::disk_row::{BitCaskDiskRow, DataHintEntry};
use bitcask::models::handler::{
    BitCaskHandler, BitCaskHandlerOpen, BitCaskHandlerOpenMode, BitCaskHandlerOpenOpts,
};
use bitcask::models::segments::{ActiveDataFile, DataFile};

fn row_bytes(key: &[u8], value: &[u8], ts: u128) -> Vec<u8> {
    BitCaskDiskRow::new(key, value, ts).to_bytes().to_vec()
}

fn hint_bytes(key: &[u8], value: &[u8], ts: u128, value_offset: u64) -> Vec<u8> {
    let row = BitCaskDiskRow::new(key, value, ts);
    DataHintEntry::from_disk_entry(&row, value_offset).to_bytes().to_vec()
}

fn tombstone(key: &[u8]) -> Vec<u8> {
    let mut row = BitCaskDiskRow::new(key, b"", 5);
    row.timestamp = 0;
    row.to_bytes().to_vec()
}

fn write_opts() -> BitCaskHandlerOpenOpts {
    BitCaskHandlerOpenOpts {
        max_file_size_in_bytes: 1000,
        mode: BitCaskHandlerOpenMode::WRITE(),
        hintfile_checksum_strict: false,
    }
}

/// One older file: `a` written twice, `b` once, `gone` written and deleted.
fn older_file() -> Vec<u8> {
    let mut f1 = row_bytes(b"a", b"1", 1);
    f1.extend(row_bytes(b"b", b"22", 2));
    f1.extend(row_bytes(b"a", b"333", 3));
    f1.extend(row_bytes(b"gone", b"x", 4));
    f1.extend(tombstone(b"gone"));
    f1
}

fn open_on(files: Vec<(&[u8], Vec<u8>)>, active: &[u8]) -> BitCaskHandler<BitCaskHandlerOpen> {
    BitCaskHandler::open(
        write_opts(),
        files.iter().map(|(f, _)| DataFile::from(f.to_vec())).collect(),
        files.into_iter().map(|(_, c)| c).collect(),
        ActiveDataFile::new(active.to_vec()),
    )
}

#[test]
fn merge_writes_one_row_per_live_key() {
    let f1 = older_file();
    let h = open_on(vec![(b"f1", f1.clone())], b"act");
    let plan = h.plan_merge(b"m".to_vec(), &[f1], 7).unwrap();
    assert_eq!(plan.merged_file(), b"m");
    let mut expected = row_bytes(b"a", b"333", 7);
    expected.extend(row_bytes(b"b", b"22", 7));
    assert_eq!(plan.data(), &expected[..]);
    assert_eq!(plan.data().len(), 40 + 39);
}

#[test]
fn merge_hints_give_value_offsets() {
    let f1 = older_file();
    let h = open_on(vec![(b"f1", f1.clone())], b"act");
    let plan = h.plan_merge(b"m".to_vec(), &[f1], 7).unwrap();
    let mut expected = hint_bytes(b"a", b"333", 7, 37);
    expected.extend(hint_bytes(b"b", b"22", 7, 40 + 37));
    assert_eq!(plan.hints(), &expected[..]);
    let (hint, n) = DataHintEntry::try_from(plan.hints()).unwrap();
    assert_eq!(n, 41);
    assert_eq!((hint.timestamp, hint.key_size, hint.value_size, hint.value_offset), (7, 1, 3, 37));
    assert_eq!(&plan.data()[37..40], b"333");
}

#[test]
fn finish_merge_moves_older_keys_into_the_merged_file() {
    let f1 = older_file();
    let mut h = open_on(vec![(b"f1", f1.clone())], b"act");
    let p = h.put(b"c", b"active", 9).unwrap();
    h.finish_write(&p, p.bytes.len() as u64);
    let plan = h.plan_merge(b"m".to_vec(), &[f1], 7).unwrap();
    let data = plan.data().to_vec();
    let removed = h.finish_merge(plan);
    assert_eq!(removed.len(), 1);
    assert_eq!(removed[0].file_path, b"f1".to_vec());
    let a = h.get(b"a").unwrap();
    assert_eq!((a.file_id.clone(), a.value_offset, a.value_size, a.timestamp), (b"m".to_vec(), 37, 3, 7));
    let b = h.get(b"b").unwrap();
    assert_eq!((b.file_id.clone(), b.value_offset, b.value_size), (b"m".to_vec(), 77, 2));
    assert_eq!(&data[77..79], b"22");
    let c = h.get(b"c").unwrap();
    assert_eq!((c.file_id.clone(), c.value_offset, c.timestamp), (b"act".to_vec(), 37, 9));
    assert!(h.get(b"gone").is_none());
    assert_eq!(h.list_keys().len(), 3);
    assert_eq!(h.inactive_data_files().len(), 1);
    assert_eq!(h.inactive_data_files()[0].file_path, b"m".to_vec());
}

#[test]
fn merged_store_reopens_to_the_same_directory() {
    let f1 = older_file();
    let mut f2 = row_bytes(b"b", b"newer", 8);
    f2.extend(tombstone(b"a"));
    let mut h = open_on(vec![(b"f1", f1.clone()), (b"f2", f2.clone())], b"act");
    let p = h.put(b"d", b"dd", 9).unwrap();
    let active = p.bytes.clone();
    h.finish_write(&p, p.bytes.len() as u64);
    let plan = h.plan_merge(b"m".to_vec(), &[f1, f2], 10).unwrap();
    let data = plan.data().to_vec();
    assert_eq!(data, row_bytes(b"b", b"newer", 10));
    h.finish_merge(plan);
    let reopened = open_on(vec![(b"m", data.clone()), (b"act", active)], b"fresh");
    for k in [&b"b"[..], b"d"] {
        let live = h.get(k).unwrap();
        let back = reopened.get(k).unwrap();
        assert_eq!(
            (live.file_id.clone(), live.value_offset, live.value_size),
            (back.file_id.clone(), back.value_offset, back.value_size)
        );
    }
    assert!(reopened.get(b"a").is_none());
    assert!(h.get(b"a").is_none());
    assert_eq!(reopened.list_keys().len(), 2);
}

#[test]
fn merge_with_only_active_keys_writes_nothing() {
    let mut h = open_on(vec![], b"act");
    let p = h.put(b"k", b"v", 3).unwrap();
    h.finish_write(&p, p.bytes.len() as u64);
    let plan = h.plan_merge(b"m".to_vec(), &[], 4).unwrap();
    assert!(plan.data().is_empty());
    assert!(plan.hints().is_empty());
    let removed = h.finish_merge(plan);
    assert!(removed.is_empty());
    assert_eq!(h.get(b"k").unwrap().file_id, b"act".to_vec());
}

#[test]
fn merge_refuses_a_location_outside_its_file() {
    let f1 = older_file();
    let h = open_on(vec![(b"f1", f1.clone())], b"act");
    let short = f1[..40].to_vec();
    assert!(h.plan_merge(b"m".to_vec(), &[short], 7).is_none());
    assert!(h.plan_merge(b"m".to_vec(), &[], 7).is_none());
}
