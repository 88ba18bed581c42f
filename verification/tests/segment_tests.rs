use bitcask::models::segments::{
    _get_all_data_entries_in_dir, _get_default_new_data_entry, _is_file_active,
    get_all_segments, DirEntryInfo,
};

fn e(path: &str, utf8: bool, is_file: bool, created: i128) -> DirEntryInfo {
    DirEntryInfo { path: path.as_bytes().to_vec(), path_is_utf8: utf8, is_file, created }
}

#[test]
fn data_file_names() {
    assert_eq!(_get_default_new_data_entry(0), b"0.bc.data".to_vec());
    assert_eq!(_get_default_new_data_entry(1234567890123), b"1234567890123.bc.data".to_vec());
    assert_eq!(_get_default_new_data_entry(u128::MAX), format!("{}.bc.data", u128::MAX).into_bytes());
}

#[test]
fn file_activity_by_size() {
    assert!(_is_file_active(10, 10));
    assert!(_is_file_active(0, 10));
    assert!(!_is_file_active(11, 10));
}

#[test]
fn only_data_files_sorted_by_creation() {
    let entries = vec![
        e("d/3.bc.data", true, true, 30),
        e("d/notes.txt", true, true, 1),
        e("d/1.bc.data", true, true, 10),
        e("d/dir.bc.data", true, false, 5),
        e("d/bad.bc.data", false, true, 2),
        e("d/2.bc.data", true, true, 20),
        e("d/.bc.dat", true, true, 3),
    ];
    let paths = _get_all_data_entries_in_dir(&entries);
    assert_eq!(paths, vec![b"d/1.bc.data".to_vec(), b"d/2.bc.data".to_vec(), b"d/3.bc.data".to_vec()]);
}

#[test]
fn equal_creation_times_keep_listing_order() {
    let entries = vec![
        e("b.bc.data", true, true, 5),
        e("a.bc.data", true, true, 5),
        e("c.bc.data", true, true, -1),
    ];
    let files = get_all_segments(&entries);
    let paths: Vec<Vec<u8>> = files.into_iter().map(|f| f.file_path).collect();
    assert_eq!(paths, vec![b"c.bc.data".to_vec(), b"b.bc.data".to_vec(), b"a.bc.data".to_vec()]);
}

#[test]
fn exact_suffix_name_is_a_data_file() {
    let entries = vec![e(".bc.data", true, true, 0)];
    assert_eq!(_get_all_data_entries_in_dir(&entries).len(), 1);
    assert!(get_all_segments(&[]).is_empty());
}
