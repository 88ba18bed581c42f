//! Merging the older data files into one: the rows and hint entries that
//! carry each value once, where each value then lies, and what reading the
//! merged file back gives.

use vstd::prelude::*;

use crate::models::byte_buf::bytes_as_slice;
use crate::models::disk_row::{
    checksum_holds, fresh_row, lemma_hint_roundtrip, lemma_row_roundtrip, parse_hint,
    BitCaskDiskRow, DataHintEntry, HintView,
};
use crate::models::encoding::put_slice;
use crate::models::in_memory::{BitCaskInMemoryValue, InMemoryView};
use crate::models::replay::{
    apply_row, apply_row_value, lemma_checksums_hold_after_append, lemma_replay_after_append,
    lemma_replay_files_file_ids, lemma_replay_frame, lemma_replay_values_after_append,
    lemma_value_at_row_end,
    log_checksums_hold, log_well_formed, replay_files, replay_files_values, replay_log,
    replay_log_values,
};

verus! {

/// The bytes of the merged data file: one row per entry, in order, each
/// storing the entry's value under its key, stamped with `timestamp`.
pub open spec fn merge_rows(entries: Seq<(Seq<u8>, Seq<u8>)>, timestamp: u128) -> Seq<u8>
    decreases entries.len(),
{
    if entries.len() == 0 {
        Seq::empty()
    } else {
        merge_rows(entries.drop_last(), timestamp) + fresh_row(
            entries.last().0,
            entries.last().1,
            timestamp,
        ).encode()
    }
}

/// Where the value of the row for `key` and `value` lies in the merged data
/// file `merged_file`, when the rows before it take `rows_before` bytes.
pub open spec fn merge_location(
    rows_before: nat,
    key: Seq<u8>,
    value: Seq<u8>,
    merged_file: Seq<u8>,
    timestamp: u128,
) -> InMemoryView {
    InMemoryView {
        file_id: merged_file,
        value_size: value.len() as u64,
        value_offset: (rows_before + 36 + key.len()) as u64,
        timestamp,
    }
}

/// The hint entry for the row of `key` and `value`, when the rows before it
/// take `rows_before` bytes: it gives the row's timestamp, sizes and key,
/// and the offset of its value.
pub open spec fn merge_hint(rows_before: nat, key: Seq<u8>, value: Seq<u8>, timestamp: u128) -> HintView {
    HintView {
        timestamp,
        key_size: key.len() as u64,
        value_size: value.len() as u64,
        value_offset: (rows_before + 36 + key.len()) as u64,
        key,
    }
}

/// The bytes of the hint file that goes with the merged data file: one
/// entry per row, in the same order.
pub open spec fn merge_hints(entries: Seq<(Seq<u8>, Seq<u8>)>, timestamp: u128) -> Seq<u8>
    decreases entries.len(),
{
    if entries.len() == 0 {
        Seq::empty()
    } else {
        let prefix = entries.drop_last();
        merge_hints(prefix, timestamp) + merge_hint(
            merge_rows(prefix, timestamp).len(),
            entries.last().0,
            entries.last().1,
            timestamp,
        ).encode()
    }
}

/// The key directory that the merged data file alone describes.
pub open spec fn merge_directory(
    entries: Seq<(Seq<u8>, Seq<u8>)>,
    merged_file: Seq<u8>,
    timestamp: u128,
) -> Map<Seq<u8>, InMemoryView>
    decreases entries.len(),
{
    if entries.len() == 0 {
        Map::empty()
    } else {
        let prefix = entries.drop_last();
        merge_directory(prefix, merged_file, timestamp).insert(
            entries.last().0,
            merge_location(
                merge_rows(prefix, timestamp).len(),
                entries.last().0,
                entries.last().1,
                merged_file,
                timestamp,
            ),
        )
    }
}

/// The values that the merged data file alone holds.
pub open spec fn merge_values(entries: Seq<(Seq<u8>, Seq<u8>)>) -> Map<Seq<u8>, Seq<u8>>
    decreases entries.len(),
{
    if entries.len() == 0 {
        Map::empty()
    } else {
        merge_values(entries.drop_last()).insert(entries.last().0, entries.last().1)
    }
}

/// The keys of `entries`, each once: a key occurs in at most one entry.
pub open spec fn keys_distinct(entries: Seq<(Seq<u8>, Seq<u8>)>) -> bool {
    forall|i: int, j: int|
        0 <= i < j < entries.len() ==> #[trigger] entries[i].0 != #[trigger] entries[j].0
}

/// The bytes of the merged data file are whole rows whose checksums hold;
/// reading them back, when their timestamp is not zero, gives each entry's
/// key the entry's value and its location in the merged file.
#[verifier::rlimit(40)]
pub proof fn lemma_merge_replay(
    entries: Seq<(Seq<u8>, Seq<u8>)>,
    merged_file: Seq<u8>,
    timestamp: u128,
    strict: bool,
)
    requires
        merge_rows(entries, timestamp).len() <= u64::MAX,
    ensures
        log_well_formed(merge_rows(entries, timestamp)),
        log_checksums_hold(merge_rows(entries, timestamp)),
        timestamp != 0 ==> replay_log(
            Map::empty(),
            merged_file,
            merge_rows(entries, timestamp),
            0,
            strict,
        ) == merge_directory(entries, merged_file, timestamp),
        timestamp != 0 ==> replay_log_values(Map::empty(), merge_rows(entries, timestamp), strict)
            == merge_values(entries),
        merge_directory(entries, merged_file, timestamp).dom() == merge_values(entries).dom(),
    decreases entries.len(),
{
    if entries.len() == 0 {
        assert(log_well_formed(Seq::<u8>::empty()));
        assert(log_checksums_hold(Seq::<u8>::empty()));
        assert(Map::<Seq<u8>, InMemoryView>::empty().dom() == Map::<Seq<u8>, Seq<u8>>::empty().dom());
    } else {
        let prefix = entries.drop_last();
        let (k, v) = entries.last();
        let before = merge_rows(prefix, timestamp);
        let r = fresh_row(k, v, timestamp);
        let e = r.encode();
        assert(merge_rows(entries, timestamp) == before + e);
        assert(e.len() == 36 + k.len() + v.len());
        lemma_merge_replay(prefix, merged_file, timestamp, strict);
        assert(r.sizes_match());
        assert(checksum_holds(r));
        lemma_row_roundtrip(r, Seq::empty());
        lemma_replay_after_append(Map::empty(), merged_file, before, 0, r, strict);
        lemma_replay_values_after_append(Map::empty(), before, r, strict);
        lemma_checksums_hold_after_append(before, r);
        if timestamp != 0 {
            let end = before.len() + r.encoded_len();
            assert(apply_row(
                merge_directory(prefix, merged_file, timestamp),
                merged_file,
                r,
                end,
                strict,
            ) == merge_directory(entries, merged_file, timestamp));
            assert(apply_row_value(merge_values(prefix), r, strict) == merge_values(entries));
        }
        assert(merge_directory(entries, merged_file, timestamp).dom() =~= merge_values(
            entries,
        ).dom());
    }
}

/// With keys that occur once, the merged file holds exactly the keys of the
/// entries, each with its entry's value.
pub proof fn lemma_merge_values_of_distinct(entries: Seq<(Seq<u8>, Seq<u8>)>)
    requires
        keys_distinct(entries),
    ensures
        forall|k: Seq<u8>|
            #[trigger] merge_values(entries).contains_key(k) <==> exists|i: int|
                0 <= i < entries.len() && #[trigger] entries[i].0 == k,
        forall|i: int|
            0 <= i < entries.len() ==> #[trigger] merge_values(entries)[entries[i].0]
                == entries[i].1,
    decreases entries.len(),
{
    if entries.len() > 0 {
        let prefix = entries.drop_last();
        let n = entries.len() - 1;
        assert forall|i: int, j: int| 0 <= i < j < prefix.len() implies #[trigger] prefix[i].0
            != #[trigger] prefix[j].0 by {
            assert(prefix[i] == entries[i] && prefix[j] == entries[j]);
        }
        lemma_merge_values_of_distinct(prefix);
        assert forall|k: Seq<u8>| #[trigger] merge_values(entries).contains_key(k) <==> exists|
            i: int,
        | 0 <= i < entries.len() && #[trigger] entries[i].0 == k by {
            if merge_values(entries).contains_key(k) && k != entries.last().0 {
                assert(merge_values(prefix).contains_key(k));
                let i = choose|i: int| 0 <= i < prefix.len() && #[trigger] prefix[i].0 == k;
                assert(prefix[i] == entries[i]);
            }
            if exists|i: int| 0 <= i < entries.len() && #[trigger] entries[i].0 == k {
                let i = choose|i: int| 0 <= i < entries.len() && #[trigger] entries[i].0 == k;
                if i < n {
                    assert(prefix[i] == entries[i]);
                    assert(merge_values(prefix).contains_key(k));
                }
            }
            if k == entries.last().0 {
                assert(entries[n].0 == k);
            }
        }
        assert forall|i: int| 0 <= i < entries.len() implies #[trigger] merge_values(
            entries,
        )[entries[i].0] == entries[i].1 by {
            if i < n {
                assert(prefix[i] == entries[i]);
                assert(entries[i].0 != entries[n].0);
                assert(merge_values(prefix)[prefix[i].0] == prefix[i].1);
            }
        }
    }
}


/// One key after the merge: reading the active file after the merged file
/// gives the key what reading it after the older files gave, except that a
/// merged key lies in the merged file.
proof fn lemma_merged_replay_at(
    prev: Map<Seq<u8>, InMemoryView>,
    prev_vals: Map<Seq<u8>, Seq<u8>>,
    md: Map<Seq<u8>, InMemoryView>,
    mv: Map<Seq<u8>, Seq<u8>>,
    active: Seq<u8>,
    last: Seq<u8>,
    strict: bool,
    k: Seq<u8>,
)
    requires
        prev.contains_key(k) ==> prev[k].file_id != active,
        md.dom() == mv.dom(),
        ({
            let dir = replay_log(prev, active, last, 0, strict);
            let vals = replay_log_values(prev_vals, last, strict);
            &&& dir.contains_key(k) == vals.contains_key(k)
            &&& mv.contains_key(k) == (dir.contains_key(k) && dir[k].file_id != active)
            &&& mv.contains_key(k) ==> mv[k] == vals[k]
        }),
    ensures
        ({
            let dir = replay_log(prev, active, last, 0, strict);
            let vals = replay_log_values(prev_vals, last, strict);
            let new_dir = replay_log(md, active, last, 0, strict);
            let new_vals = replay_log_values(mv, last, strict);
            &&& new_dir.contains_key(k) == dir.contains_key(k)
            &&& new_dir.contains_key(k) ==> new_dir[k] == (if md.contains_key(k) {
                md[k]
            } else {
                dir[k]
            })
            &&& new_vals.contains_key(k) == vals.contains_key(k)
            &&& new_vals.contains_key(k) ==> new_vals[k] == vals[k]
        }),
{
    lemma_replay_frame(md, prev, mv, prev_vals, active, last, 0, strict, k);
    lemma_replay_frame(prev, md, prev_vals, mv, active, last, 0, strict, k);
    assert(md.contains_key(k) == mv.contains_key(k));
}

/// Reading the merged file and then the active file is reading the active
/// file on top of what the merged file gives; reading the older files and
/// then the active file is reading the active file on top of what the older
/// files give.
proof fn lemma_merged_files_unfold(
    older_ids: Seq<Seq<u8>>,
    older_logs: Seq<Seq<u8>>,
    active: Seq<u8>,
    last: Seq<u8>,
    data: Seq<u8>,
    merged_file: Seq<u8>,
    strict: bool,
)
    ensures
        replay_files(Map::empty(), older_ids.push(active), older_logs.push(last), strict)
            == replay_log(replay_files(Map::empty(), older_ids, older_logs, strict), active, last, 0, strict),
        replay_files_values(older_logs.push(last), strict) == replay_log_values(
            replay_files_values(older_logs, strict),
            last,
            strict,
        ),
        replay_files(Map::empty(), seq![merged_file, active], seq![data, last], strict)
            == replay_log(replay_log(Map::empty(), merged_file, data, 0, strict), active, last, 0, strict),
        replay_files_values(seq![data, last], strict) == replay_log_values(
            replay_log_values(Map::empty(), data, strict),
            last,
            strict,
        ),
{
    assert(older_ids.push(active).drop_last() == older_ids);
    assert(older_logs.push(last).drop_last() == older_logs);
    let ids2 = seq![merged_file, active];
    let logs2 = seq![data, last];
    assert(ids2.drop_last() == seq![merged_file]);
    assert(logs2.drop_last() == seq![data]);
    assert(seq![merged_file].drop_last() == Seq::<Seq<u8>>::empty());
    assert(seq![data].drop_last() == Seq::<Seq<u8>>::empty());
    assert(seq![data].last() == data);
    assert(seq![merged_file].last() == merged_file);
    assert(ids2.last() == active);
    assert(logs2.last() == last);
    assert(replay_files(Map::empty(), Seq::<Seq<u8>>::empty(), Seq::<Seq<u8>>::empty(), strict)
        == Map::<Seq<u8>, InMemoryView>::empty());
    assert(replay_files_values(Seq::<Seq<u8>>::empty(), strict) == Map::<Seq<u8>, Seq<u8>>::empty());
    assert(replay_files(Map::empty(), seq![merged_file], seq![data], strict) == replay_log(
        Map::empty(),
        merged_file,
        data,
        0,
        strict,
    ));
    assert(replay_files_values(seq![data], strict) == replay_log_values(Map::empty(), data, strict));
}

/// Replacing the older data files by one merged file that holds, for each
/// key whose location lies in an older file, the value the store holds, and
/// keeping the active file, reads back the same values; each merged key
/// then lies in the merged file, every other key where it lay.
#[verifier::rlimit(60)]
pub proof fn lemma_merged_replay(
    older_ids: Seq<Seq<u8>>,
    older_logs: Seq<Seq<u8>>,
    active: Seq<u8>,
    last: Seq<u8>,
    entries: Seq<(Seq<u8>, Seq<u8>)>,
    merged_file: Seq<u8>,
    timestamp: u128,
    strict: bool,
)
    requires
        older_ids.len() == older_logs.len(),
        !older_ids.contains(active),
        timestamp != 0,
        merge_rows(entries, timestamp).len() <= u64::MAX,
        ({
            let dir = replay_files(Map::empty(), older_ids.push(active), older_logs.push(last), strict);
            let vals = replay_files_values(older_logs.push(last), strict);
            &&& dir.dom() == vals.dom()
            &&& merge_values(entries) == vals.restrict(
                Set::new(|k: Seq<u8>| dir.contains_key(k) && dir[k].file_id != active),
            )
        }),
    ensures
        ({
            let dir = replay_files(Map::empty(), older_ids.push(active), older_logs.push(last), strict);
            let vals = replay_files_values(older_logs.push(last), strict);
            let ids2 = seq![merged_file, active];
            let logs2 = seq![merge_rows(entries, timestamp), last];
            &&& replay_files(Map::empty(), ids2, logs2, strict) == dir.union_prefer_right(
                merge_directory(entries, merged_file, timestamp).restrict(dir.dom()),
            )
            &&& replay_files_values(logs2, strict) == vals
        }),
{
    let dir = replay_files(Map::empty(), older_ids.push(active), older_logs.push(last), strict);
    let vals = replay_files_values(older_logs.push(last), strict);
    let older = Set::new(|k: Seq<u8>| dir.contains_key(k) && dir[k].file_id != active);
    let data = merge_rows(entries, timestamp);
    let prev = replay_files(Map::empty(), older_ids, older_logs, strict);
    let prev_vals = replay_files_values(older_logs, strict);
    lemma_merged_files_unfold(older_ids, older_logs, active, last, data, merged_file, strict);
    lemma_merge_replay(entries, merged_file, timestamp, strict);
    let md = merge_directory(entries, merged_file, timestamp);
    let mv = merge_values(entries);
    let new_dir = replay_log(md, active, last, 0, strict);
    let new_vals = replay_log_values(mv, last, strict);
    lemma_replay_files_file_ids(older_ids, older_logs, strict);
    let target = dir.union_prefer_right(md.restrict(dir.dom()));
    assert forall|k: Seq<u8>|
        #![trigger new_dir.contains_key(k)]
        #![trigger target.contains_key(k)]
        #![trigger new_vals.contains_key(k)]
        #![trigger vals.contains_key(k)]
        new_dir.contains_key(k) == target.contains_key(k) && (new_dir.contains_key(k)
            ==> new_dir[k] == target[k]) && new_vals.contains_key(k) == vals.contains_key(k) && (
        new_vals.contains_key(k) ==> new_vals[k] == vals[k]) by {
        if prev.contains_key(k) {
            assert(older_ids.contains(prev[k].file_id));
        }
        assert(dir.contains_key(k) == vals.contains_key(k));
        assert(mv.contains_key(k) == (vals.contains_key(k) && older.contains(k)));
        lemma_merged_replay_at(prev, prev_vals, md, mv, active, last, strict, k);
    }
    assert(new_dir.dom() =~= target.dom());
    assert(new_dir =~= target);
    assert(new_vals.dom() =~= vals.dom());
    assert(new_vals =~= vals);
}


/// `i` is the position of the first of `ids` that is `file_id`.
pub open spec fn is_first_index(ids: Seq<Seq<u8>>, file_id: Seq<u8>, i: int) -> bool {
    &&& 0 <= i < ids.len()
    &&& ids[i] == file_id
    &&& forall|j: int| 0 <= j < i ==> ids[j] != file_id
}

/// The value that the location `loc` points at, in the data files whose
/// bytes are `contents` and whose names are `ids` (the first file of that
/// name), if the location lies within that file.
pub open spec fn stored_value(
    ids: Seq<Seq<u8>>,
    contents: Seq<Seq<u8>>,
    loc: InMemoryView,
) -> Option<Seq<u8>> {
    if exists|i: int| is_first_index(ids, loc.file_id, i) {
        let i = choose|i: int| is_first_index(ids, loc.file_id, i);
        if i < contents.len() && loc.value_offset + loc.value_size <= contents[i].len() {
            Some(contents[i].subrange(loc.value_offset as int, loc.value_offset + loc.value_size))
        } else {
            None
        }
    } else {
        None
    }
}

/// A name has at most one first position.
pub proof fn lemma_first_index_unique(ids: Seq<Seq<u8>>, file_id: Seq<u8>, i: int, j: int)
    requires
        is_first_index(ids, file_id, i),
        is_first_index(ids, file_id, j),
    ensures
        i == j,
{
    if i < j {
        assert(ids[i] != file_id);
    } else if j < i {
        assert(ids[j] != file_id);
    }
}


/// Each of `locations` gives the key of the entry at its position and where
/// that entry's value lies in the merged data file.
pub open spec fn locations_match(
    locations: Seq<(Vec<u8>, BitCaskInMemoryValue)>,
    entries: Seq<(Seq<u8>, Seq<u8>)>,
    merged_file: Seq<u8>,
    timestamp: u128,
) -> bool {
    &&& locations.len() == entries.len()
    &&& forall|i: int|
        0 <= i < entries.len() ==> {
            &&& (#[trigger] locations[i]).0@ == entries[i].0
            &&& locations[i].1@ == merge_location(
                merge_rows(entries.take(i), timestamp).len(),
                entries[i].0,
                entries[i].1,
                merged_file,
                timestamp,
            )
        }
}

/// Appends the row that stores `value` under `key` to `data`, its hint
/// entry to `hints`, and its location to `locations`, and gives the new
/// length of `data`; gives nothing, and leaves the merge as it was, when the
/// row would take `data` past the largest size of a data file.
pub(crate) fn append_merge_entry(
    data: &mut Vec<u8>,
    hints: &mut Vec<u8>,
    locations: &mut Vec<(Vec<u8>, BitCaskInMemoryValue)>,
    total: u64,
    key: &[u8],
    value: &[u8],
    merged_file: &[u8],
    timestamp: u128,
    Ghost(entries): Ghost<Seq<(Seq<u8>, Seq<u8>)>>,
) -> (r: Option<u64>)
    requires
        old(data)@ == merge_rows(entries, timestamp),
        old(hints)@ == merge_hints(entries, timestamp),
        total == old(data)@.len(),
        locations_match(old(locations)@, entries, merged_file@, timestamp),
    ensures
        match r {
            Some(t) => {
                let next = entries.push((key@, value@));
                &&& final(data)@ == merge_rows(next, timestamp)
                &&& final(hints)@ == merge_hints(next, timestamp)
                &&& t == final(data)@.len()
                &&& locations_match(final(locations)@, next, merged_file@, timestamp)
            },
            None => merge_rows(entries.push((key@, value@)), timestamp).len() > u64::MAX,
        },
{
    let ghost next = entries.push((key@, value@));
    let ghost row = fresh_row(key@, value@, timestamp);
    let klen = key.len() as u64;
    let vlen = value.len() as u64;
    proof {
        assert(next.drop_last() == entries);
        lemma_row_roundtrip(row, Seq::empty());
        assert(merge_rows(next, timestamp) == merge_rows(entries, timestamp) + row.encode());
    }
    let head = match 36u64.checked_add(klen) {
        Some(h) => h,
        None => {
            return None;
        },
    };
    let row_len = match head.checked_add(vlen) {
        Some(n) => n,
        None => {
            return None;
        },
    };
    let new_total = match total.checked_add(row_len) {
        Some(n) => n,
        None => {
            return None;
        },
    };
    let offset = total + head;
    let disk_row = BitCaskDiskRow::new(key, value, timestamp);
    let row_bytes = disk_row.to_bytes();
    put_slice(data, bytes_as_slice(&row_bytes));
    let hint = DataHintEntry::from_disk_entry(&disk_row, offset);
    let hint_bytes = hint.to_bytes();
    put_slice(hints, bytes_as_slice(&hint_bytes));
    locations.push(
        (
            vstd::slice::slice_to_vec(key),
            BitCaskInMemoryValue {
                file_id: vstd::slice::slice_to_vec(merged_file),
                value_size: vlen,
                value_offset: offset,
                timestamp,
            },
        ),
    );
    proof {
        assert(hint@ == merge_hint(total as nat, key@, value@, timestamp));
        assert(next.take(entries.len() as int) == entries);
        assert forall|j: int| 0 <= j < next.len() implies {
            &&& (#[trigger] locations@[j]).0@ == next[j].0
            &&& locations@[j].1@ == merge_location(
                merge_rows(next.take(j), timestamp).len(),
                next[j].0,
                next[j].1,
                merged_file@,
                timestamp,
            )
        } by {
            if j < entries.len() {
                assert(next.take(j) =~= entries.take(j));
                assert(next[j] == entries[j]);
                assert(locations@[j] == old(locations)@[j]);
            }
        }
    }
    Some(new_total)
}


/// The rows and hint entries of the first `j` entries begin the merged data
/// file and its hint file.
proof fn lemma_merge_prefixes(entries: Seq<(Seq<u8>, Seq<u8>)>, timestamp: u128, j: int)
    requires
        0 <= j <= entries.len(),
    ensures
        merge_rows(entries.take(j), timestamp).len() <= merge_rows(entries, timestamp).len(),
        merge_rows(entries, timestamp).subrange(
            0,
            merge_rows(entries.take(j), timestamp).len() as int,
        ) == merge_rows(entries.take(j), timestamp),
        merge_hints(entries.take(j), timestamp).len() <= merge_hints(entries, timestamp).len(),
        merge_hints(entries, timestamp).subrange(
            0,
            merge_hints(entries.take(j), timestamp).len() as int,
        ) == merge_hints(entries.take(j), timestamp),
    decreases entries.len(),
{
    if j == entries.len() {
        assert(entries.take(j) == entries);
        assert(merge_rows(entries, timestamp).subrange(0, merge_rows(entries, timestamp).len() as int)
            == merge_rows(entries, timestamp));
        assert(merge_hints(entries, timestamp).subrange(
            0,
            merge_hints(entries, timestamp).len() as int,
        ) == merge_hints(entries, timestamp));
    } else {
        let prefix = entries.drop_last();
        assert(prefix.take(j) == entries.take(j));
        lemma_merge_prefixes(prefix, timestamp, j);
        let a = merge_rows(prefix, timestamp);
        let b = merge_rows(entries, timestamp);
        assert(b.subrange(0, a.len() as int) == a);
        let c = merge_hints(prefix, timestamp);
        let d = merge_hints(entries, timestamp);
        assert(d.subrange(0, c.len() as int) == c);
        let n = merge_rows(entries.take(j), timestamp).len() as int;
        assert(b.subrange(0, n) == a.subrange(0, n));
        let m = merge_hints(entries.take(j), timestamp).len() as int;
        assert(d.subrange(0, m) == c.subrange(0, m));
    }
}

/// The merged data file holds each entry's value right after the header
/// and key of its row.
proof fn lemma_merge_value_at(entries: Seq<(Seq<u8>, Seq<u8>)>, timestamp: u128, i: int)
    requires
        merge_rows(entries, timestamp).len() <= u64::MAX,
        0 <= i < entries.len(),
    ensures
        ({
            let data = merge_rows(entries, timestamp);
            let off = merge_rows(entries.take(i), timestamp).len() + 36 + entries[i].0.len();
            &&& off + entries[i].1.len() <= data.len()
            &&& merge_rows(entries.take(i + 1), timestamp).len() <= data.len()
            &&& data.subrange(off as int, (off + entries[i].1.len()) as int) == entries[i].1
        }),
{
    let (k, v) = entries[i];
    let before = entries.take(i);
    let upto = entries.take(i + 1);
    assert(upto.drop_last() == before);
    assert(upto.last() == entries[i]);
    lemma_merge_prefixes(entries, timestamp, i + 1);
    let rows_before = merge_rows(before, timestamp);
    let row = fresh_row(k, v, timestamp);
    let rows_upto = merge_rows(upto, timestamp);
    assert(rows_upto == rows_before + row.encode());
    assert(row.encode().len() == 36 + k.len() + v.len());
    assert(row.sizes_match());
    lemma_value_at_row_end(rows_before, row);
    lemma_row_roundtrip(row, Seq::empty());
    let data = merge_rows(entries, timestamp);
    let off: int = (rows_before.len() + 36 + k.len()) as int;
    assert(data.subrange(off, off + v.len()) == rows_upto.subrange(off, off + v.len() as int));
}

/// The hint entry of entry `i` reads back from where the hint entries of
/// the entries before it end.
#[verifier::rlimit(50)]
proof fn lemma_merge_hint_at(entries: Seq<(Seq<u8>, Seq<u8>)>, timestamp: u128, i: int)
    requires
        merge_rows(entries, timestamp).len() <= u64::MAX,
        0 <= i < entries.len(),
    ensures
        ({
            let hints = merge_hints(entries, timestamp);
            let start = merge_hints(entries.take(i), timestamp).len();
            &&& start <= hints.len()
            &&& parse_hint(hints.subrange(start as int, hints.len() as int)) == Some(
                merge_hint(
                    merge_rows(entries.take(i), timestamp).len(),
                    entries[i].0,
                    entries[i].1,
                    timestamp,
                ),
            )
            &&& merge_hints(entries.take(i + 1), timestamp).len() == start + 40 + entries[i].0.len()
        }),
{
    let (k, v) = entries[i];
    let before = entries.take(i);
    let upto = entries.take(i + 1);
    assert(upto.drop_last() == before);
    assert(upto.last() == entries[i]);
    lemma_merge_prefixes(entries, timestamp, i + 1);
    let rows_before = merge_rows(before, timestamp);
    assert(merge_rows(upto, timestamp) == rows_before + fresh_row(k, v, timestamp).encode());
    assert(fresh_row(k, v, timestamp).encode().len() == 36 + k.len() + v.len());
    assert(k.len() <= u64::MAX);
    let hint = merge_hint(merge_rows(before, timestamp).len(), k, v, timestamp);
    let hints_before = merge_hints(before, timestamp);
    let hints_upto = merge_hints(upto, timestamp);
    assert(hints_upto == hints_before + hint.encode());
    let hints = merge_hints(entries, timestamp);
    let rest = hints.subrange(hints_upto.len() as int, hints.len() as int);
    let tail = hints.subrange(hints_before.len() as int, hints.len() as int);
    let e = hint.encode();
    assert(hints.subrange(0, hints_upto.len() as int) == hints_upto);
    assert forall|t: int| 0 <= t < tail.len() implies tail[t] == (e + rest)[t] by {
        if t < e.len() {
            assert(hints[hints_before.len() + t] == hints.subrange(0, hints_upto.len() as int)[
                hints_before.len() + t]);
            assert(hints_upto[hints_before.len() + t] == e[t]);
        } else {
            assert(rest[t - e.len()] == hints[hints_upto.len() + t - e.len()]);
        }
    }
    assert(tail =~= e + rest);
    lemma_hint_roundtrip(hint, rest);
}

/// Each hint entry that a merge writes reads back, with `parse_hint`, as
/// the entry of the matching row: the timestamp, the key, a key size that
/// is the key's length, the value's size, and an offset at which the merged
/// data file holds exactly the value; the next entry starts right after it.
pub proof fn lemma_merge_hints_read_back(
    entries: Seq<(Seq<u8>, Seq<u8>)>,
    timestamp: u128,
    i: int,
)
    requires
        merge_rows(entries, timestamp).len() <= u64::MAX,
        0 <= i < entries.len(),
    ensures
        ({
            let hints = merge_hints(entries, timestamp);
            let data = merge_rows(entries, timestamp);
            let start = merge_hints(entries.take(i), timestamp).len();
            let h = parse_hint(hints.subrange(start as int, hints.len() as int)).unwrap();
            &&& start <= hints.len()
            &&& parse_hint(hints.subrange(start as int, hints.len() as int)) is Some
            &&& h.timestamp == timestamp
            &&& h.key == entries[i].0
            &&& h.key_size == entries[i].0.len()
            &&& h.value_size == entries[i].1.len()
            &&& h.value_offset + h.value_size <= data.len()
            &&& data.subrange(h.value_offset as int, h.value_offset + h.value_size) == entries[i].1
            &&& merge_hints(entries.take(i + 1), timestamp).len() == start + 40 + entries[i].0.len()
        }),
{
    lemma_merge_value_at(entries, timestamp, i);
    lemma_merge_hint_at(entries, timestamp, i);
}

} // verus!
