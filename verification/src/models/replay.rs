//! Reading data files back: the key directory and the values that a
//! sequence of data files describes, and the facts that tie them to the
//! rows that were written.

use vstd::prelude::*;

use crate::models::disk_row::{checksum_holds, lemma_row_roundtrip, parse_row, DiskRowView};
use crate::models::in_memory::InMemoryView;

verus! {

/// Whether reading takes the row into account. When checksums are checked
/// (`strict`), a row that stores a value is left out unless its checksum
/// holds. A row with timestamp zero (a deletion) is always taken: its
/// checksum was computed before its timestamp was set to zero.
pub open spec fn row_admitted(r: DiskRowView, strict: bool) -> bool {
    !strict || r.timestamp == 0 || checksum_holds(r)
}

/// The key directory after the row `r`, whose encoding ends at offset `end`
/// of the data file `file_id`, has been read: a row that is not admitted
/// changes nothing, a row with timestamp zero removes its key, any other
/// row records where its value lies.
pub open spec fn apply_row(
    m: Map<Seq<u8>, InMemoryView>,
    file_id: Seq<u8>,
    r: DiskRowView,
    end: nat,
    strict: bool,
) -> Map<Seq<u8>, InMemoryView> {
    if !row_admitted(r, strict) {
        m
    } else if r.timestamp == 0 {
        m.remove(r.key)
    } else {
        m.insert(
            r.key,
            InMemoryView {
                file_id,
                value_size: r.value_size,
                value_offset: (end - r.value_size) as u64,
                timestamp: r.timestamp,
            },
        )
    }
}

/// Whether `s` is a sequence of whole rows.
pub open spec fn log_well_formed(s: Seq<u8>) -> bool
    decreases s.len(),
{
    if s.len() == 0 {
        true
    } else {
        match parse_row(s) {
            Some(r) => log_well_formed(s.subrange(r.encoded_len() as int, s.len() as int)),
            None => false,
        }
    }
}

/// The key directory after the rows of `s`, which starts at offset `base` of
/// the data file `file_id`, have been read in order into `m`.
pub open spec fn replay_log(
    m: Map<Seq<u8>, InMemoryView>,
    file_id: Seq<u8>,
    s: Seq<u8>,
    base: nat,
    strict: bool,
) -> Map<Seq<u8>, InMemoryView>
    decreases s.len(),
{
    if s.len() == 0 {
        m
    } else {
        match parse_row(s) {
            Some(r) => replay_log(
                apply_row(m, file_id, r, base + r.encoded_len(), strict),
                file_id,
                s.subrange(r.encoded_len() as int, s.len() as int),
                base + r.encoded_len(),
                strict,
            ),
            None => m,
        }
    }
}

/// The key directory after the data files `logs`, named by `ids`, have been
/// read in order into `m`.
pub open spec fn replay_files(
    m: Map<Seq<u8>, InMemoryView>,
    ids: Seq<Seq<u8>>,
    logs: Seq<Seq<u8>>,
    strict: bool,
) -> Map<Seq<u8>, InMemoryView>
    decreases logs.len(),
{
    if logs.len() == 0 {
        m
    } else {
        replay_log(
            replay_files(m, ids.drop_last(), logs.drop_last(), strict),
            ids.last(),
            logs.last(),
            0,
            strict,
        )
    }
}

/// A whole row at the start of `s` is read the same whatever follows `s`.
pub proof fn lemma_parse_row_prefix(s: Seq<u8>, t: Seq<u8>)
    requires
        parse_row(s) is Some,
    ensures
        parse_row(s + t) == parse_row(s),
{
    let st = s + t;
    assert(forall|k: int| 0 <= k < s.len() ==> st[k] == s[k]);
    let a = st.subrange(20, st.len() as int);
    let b = s.subrange(20, s.len() as int);
    assert(forall|k: int| 0 <= k < 8 ==> a[k] == b[k]);
    let a = st.subrange(28, st.len() as int);
    let b = s.subrange(28, s.len() as int);
    assert(forall|k: int| 0 <= k < 8 ==> a[k] == b[k]);
    let a = st.subrange(4, st.len() as int);
    let b = s.subrange(4, s.len() as int);
    assert(forall|k: int| 0 <= k < 16 ==> a[k] == b[k]);
    assert(a.subrange(8, 16) == b.subrange(8, 16));
    let r = parse_row(s).unwrap();
    assert(st.subrange(36, 36 + r.key_size) == s.subrange(36, 36 + r.key_size));
    assert(st.subrange(36 + r.key_size, 36 + r.key_size + r.value_size) == s.subrange(
        36 + r.key_size,
        36 + r.key_size + r.value_size,
    ));
}

/// Appending a row to a data file of whole rows leaves a data file of whole
/// rows, and reading it back gives what reading the old file gave, with
/// that row applied last.
pub proof fn lemma_replay_after_append(
    m: Map<Seq<u8>, InMemoryView>,
    file_id: Seq<u8>,
    log: Seq<u8>,
    base: nat,
    r: DiskRowView,
    strict: bool,
)
    requires
        log_well_formed(log),
        r.sizes_match(),
    ensures
        log_well_formed(log + r.encode()),
        replay_log(m, file_id, log + r.encode(), base, strict) == apply_row(
            replay_log(m, file_id, log, base, strict),
            file_id,
            r,
            base + log.len() + r.encoded_len(),
            strict,
        ),
    decreases log.len(),
{
    let e = r.encode();
    lemma_row_roundtrip(r, Seq::<u8>::empty());
    assert(e + Seq::<u8>::empty() == e);
    let n = r.encoded_len();
    if log.len() == 0 {
        assert(log + e == e);
        assert(parse_row(e) == Some(r));
        let empty = e.subrange(n as int, e.len() as int);
        assert(empty.len() == 0);
        assert(log_well_formed(empty));
        assert(replay_log(apply_row(m, file_id, r, base + n, strict), file_id, empty, base + n, strict)
            == apply_row(m, file_id, r, base + n, strict));
        assert(replay_log(m, file_id, log, base, strict) == m);
    } else {
        let r0 = parse_row(log).unwrap();
        let n0 = r0.encoded_len();
        let m0 = apply_row(m, file_id, r0, base + n0, strict);
        lemma_parse_row_prefix(log, e);
        let le = log + e;
        let rest = log.subrange(n0 as int, log.len() as int);
        assert(le.subrange(n0 as int, le.len() as int) == rest + e);
        assert(log_well_formed(rest));
        lemma_replay_after_append(m0, file_id, rest, base + n0, r, strict);
        assert(parse_row(le) == Some(r0));
        assert(log_well_formed(le) == log_well_formed(rest + e));
        assert(replay_log(m, file_id, log, base, strict) == replay_log(
            m0,
            file_id,
            rest,
            base + n0,
            strict,
        ));
        assert(replay_log(m, file_id, le, base, strict) == replay_log(
            m0,
            file_id,
            rest + e,
            base + n0,
            strict,
        ));
        assert(base + n0 + rest.len() == base + log.len());
    }
}

/// In a data file, the value of a row lies in the last bytes of that row.
pub proof fn lemma_value_at_row_end(log: Seq<u8>, r: DiskRowView)
    requires
        r.sizes_match(),
    ensures
        ({
            let end = log.len() + r.encoded_len();
            (log + r.encode()).subrange(end - r.value_size, end as int) == r.value
        }),
{
    lemma_row_roundtrip(r, Seq::<u8>::empty());
    let end = log.len() + r.encoded_len();
    let s = log + r.encode();
    assert(s.subrange(end - r.value_size, end as int) =~= r.value);
}

/// The value of each key after the row `r` has been read: a row that is not
/// admitted changes nothing, a row with timestamp zero removes its key, any
/// other row gives its key its value.
pub open spec fn apply_row_value(vm: Map<Seq<u8>, Seq<u8>>, r: DiskRowView, strict: bool) -> Map<
    Seq<u8>,
    Seq<u8>,
> {
    if !row_admitted(r, strict) {
        vm
    } else if r.timestamp == 0 {
        vm.remove(r.key)
    } else {
        vm.insert(r.key, r.value)
    }
}

/// The value of each key after the rows of `s` have been read in order.
pub open spec fn replay_log_values(vm: Map<Seq<u8>, Seq<u8>>, s: Seq<u8>, strict: bool) -> Map<
    Seq<u8>,
    Seq<u8>,
>
    decreases s.len(),
{
    if s.len() == 0 {
        vm
    } else {
        match parse_row(s) {
            Some(r) => replay_log_values(
                apply_row_value(vm, r, strict),
                s.subrange(r.encoded_len() as int, s.len() as int),
                strict,
            ),
            None => vm,
        }
    }
}

/// The value of each key after the data files `logs` have been read in
/// order: what a store with these files holds.
pub open spec fn replay_files_values(logs: Seq<Seq<u8>>, strict: bool) -> Map<Seq<u8>, Seq<u8>>
    decreases logs.len(),
{
    if logs.len() == 0 {
        Map::empty()
    } else {
        replay_log_values(replay_files_values(logs.drop_last(), strict), logs.last(), strict)
    }
}

/// The location `e` names a data file among `ids` whose bytes `logs` hold
/// the value `v` there.
pub open spec fn holds_value(
    ids: Seq<Seq<u8>>,
    logs: Seq<Seq<u8>>,
    e: InMemoryView,
    v: Seq<u8>,
) -> bool {
    exists|i: int|
        #![trigger ids[i]]
        0 <= i < logs.len() && i < ids.len() && ids[i] == e.file_id && e.value_size == v.len()
            && e.value_offset + e.value_size <= logs[i].len() && logs[i].subrange(
            e.value_offset as int,
            e.value_offset + e.value_size,
        ) == v
}

/// The directory `dir` and the values `vm` have the same keys, and each
/// key's location holds its value.
pub open spec fn locations_hold(
    ids: Seq<Seq<u8>>,
    logs: Seq<Seq<u8>>,
    dir: Map<Seq<u8>, InMemoryView>,
    vm: Map<Seq<u8>, Seq<u8>>,
) -> bool {
    &&& dir.dom() == vm.dom()
    &&& forall|k: Seq<u8>| #[trigger] dir.contains_key(k) ==> holds_value(ids, logs, dir[k], vm[k])
}

/// Locations keep holding their values when data files only grow at
/// their ends and new data files are added.
pub proof fn lemma_locations_hold_after_growth(
    ids: Seq<Seq<u8>>,
    logs: Seq<Seq<u8>>,
    ids2: Seq<Seq<u8>>,
    logs2: Seq<Seq<u8>>,
    dir: Map<Seq<u8>, InMemoryView>,
    vm: Map<Seq<u8>, Seq<u8>>,
)
    requires
        locations_hold(ids, logs, dir, vm),
        ids2.len() >= ids.len(),
        logs2.len() >= logs.len(),
        forall|i: int| 0 <= i < ids.len() ==> ids2[i] == ids[i],
        forall|i: int|
            0 <= i < logs.len() ==> logs2[i].len() >= logs[i].len() && #[trigger] logs2[i].subrange(
                0,
                logs[i].len() as int,
            ) == logs[i],
    ensures
        locations_hold(ids2, logs2, dir, vm),
{
    assert forall|k: Seq<u8>| #[trigger] dir.contains_key(k) implies holds_value(
        ids2,
        logs2,
        dir[k],
        vm[k],
    ) by {
        let e = dir[k];
        let i = choose|i: int|
            #![trigger ids[i]]
            0 <= i < logs.len() && i < ids.len() && ids[i] == e.file_id && e.value_size
                == vm[k].len() && e.value_offset + e.value_size <= logs[i].len()
                && logs[i].subrange(e.value_offset as int, e.value_offset + e.value_size)
                == vm[k];
        let whole = logs2[i].subrange(0, logs[i].len() as int);
        assert(whole.subrange(e.value_offset as int, e.value_offset + e.value_size)
            == logs2[i].subrange(e.value_offset as int, e.value_offset + e.value_size));
        assert(ids2[i] == e.file_id);
    }
}

/// Reading the rows of the last data file, from offset `pos` on, keeps
/// every location holding its value.
proof fn lemma_replay_log_locations(
    ids: Seq<Seq<u8>>,
    logs: Seq<Seq<u8>>,
    dir: Map<Seq<u8>, InMemoryView>,
    vm: Map<Seq<u8>, Seq<u8>>,
    pos: nat,
    strict: bool,
)
    requires
        ids.len() == logs.len(),
        logs.len() > 0,
        pos <= logs.last().len(),
        logs.last().len() <= u64::MAX,
        log_well_formed(logs.last().subrange(pos as int, logs.last().len() as int)),
        locations_hold(ids, logs, dir, vm),
    ensures
        locations_hold(
            ids,
            logs,
            replay_log(
                dir,
                ids.last(),
                logs.last().subrange(pos as int, logs.last().len() as int),
                pos,
                strict,
            ),
            replay_log_values(vm, logs.last().subrange(pos as int, logs.last().len() as int), strict),
        ),
    decreases logs.last().len() - pos,
{
    let f = logs.last();
    let s = f.subrange(pos as int, f.len() as int);
    if s.len() > 0 {
        let r = parse_row(s).unwrap();
        let n = r.encoded_len();
        let dir1 = apply_row(dir, ids.last(), r, pos + n, strict);
        let vm1 = apply_row_value(vm, r, strict);
        let last = logs.len() - 1;
        assert(locations_hold(ids, logs, dir1, vm1)) by {
            if !row_admitted(r, strict) {
            } else if r.timestamp == 0 {
                assert(dir1.dom() == vm1.dom());
                assert forall|k: Seq<u8>| #[trigger] dir1.contains_key(k) implies holds_value(
                    ids,
                    logs,
                    dir1[k],
                    vm1[k],
                ) by {
                    assert(dir.contains_key(k));
                }
            } else {
                assert(dir1.dom() == vm1.dom());
                let e = dir1[r.key];
                assert(s.subrange(36 + r.key_size, n as int) == f.subrange(
                    pos + 36 + r.key_size,
                    (pos + n) as int,
                ));
                assert(ids[last] == e.file_id);
                assert(logs[last] == f);
                assert(holds_value(ids, logs, e, r.value));
                assert forall|k: Seq<u8>| #[trigger] dir1.contains_key(k) implies holds_value(
                    ids,
                    logs,
                    dir1[k],
                    vm1[k],
                ) by {
                    if k != r.key {
                        assert(dir.contains_key(k));
                    }
                }
            }
        }
        assert(s.subrange(n as int, s.len() as int) == f.subrange((pos + n) as int, f.len() as int));
        lemma_replay_log_locations(ids, logs, dir1, vm1, pos + n, strict);
    }
}

/// In the store that a sequence of data files describes, every key's
/// location holds the value that the files last gave that key.
pub proof fn lemma_replay_files_locations(ids: Seq<Seq<u8>>, logs: Seq<Seq<u8>>, strict: bool)
    requires
        ids.len() == logs.len(),
        forall|i: int|
            0 <= i < logs.len() ==> log_well_formed(#[trigger] logs[i]) && logs[i].len()
                <= u64::MAX,
    ensures
        locations_hold(
            ids,
            logs,
            replay_files(Map::empty(), ids, logs, strict),
            replay_files_values(logs, strict),
        ),
    decreases logs.len(),
{
    if logs.len() == 0 {
        assert(Map::<Seq<u8>, InMemoryView>::empty().dom() == Map::<Seq<u8>, Seq<u8>>::empty().dom());
    } else {
        let ids0 = ids.drop_last();
        let logs0 = logs.drop_last();
        assert forall|i: int| 0 <= i < logs0.len() implies log_well_formed(#[trigger] logs0[i])
            && logs0[i].len() <= u64::MAX by {
            assert(logs0[i] == logs[i]);
        }
        lemma_replay_files_locations(ids0, logs0, strict);
        let dir0 = replay_files(Map::empty(), ids0, logs0, strict);
        let vm0 = replay_files_values(logs0, strict);
        assert forall|i: int| 0 <= i < logs0.len() implies logs[i].len() >= logs0[i].len()
            && #[trigger] logs[i].subrange(0, logs0[i].len() as int) == logs0[i] by {
            assert(logs[i] == logs0[i]);
            assert(logs[i].subrange(0, logs[i].len() as int) == logs[i]);
        }
        lemma_locations_hold_after_growth(ids0, logs0, ids, logs, dir0, vm0);
        assert(logs.last().subrange(0, logs.last().len() as int) == logs.last());
        assert(log_well_formed(logs[logs.len() - 1]));
        lemma_replay_log_locations(ids, logs, dir0, vm0, 0, strict);
    }
}

/// Appending a row to a data file of whole rows gives the values that the
/// old file gave, with that row applied last.
pub proof fn lemma_replay_values_after_append(
    vm: Map<Seq<u8>, Seq<u8>>,
    log: Seq<u8>,
    r: DiskRowView,
    strict: bool,
)
    requires
        log_well_formed(log),
        r.sizes_match(),
    ensures
        replay_log_values(vm, log + r.encode(), strict) == apply_row_value(
            replay_log_values(vm, log, strict),
            r,
            strict,
        ),
    decreases log.len(),
{
    let e = r.encode();
    lemma_row_roundtrip(r, Seq::<u8>::empty());
    assert(e + Seq::<u8>::empty() == e);
    let n = r.encoded_len();
    if log.len() == 0 {
        assert(log + e == e);
        assert(parse_row(e) == Some(r));
        let empty = e.subrange(n as int, e.len() as int);
        assert(empty.len() == 0);
        assert(replay_log_values(apply_row_value(vm, r, strict), empty, strict) == apply_row_value(
            vm,
            r,
            strict,
        ));
    } else {
        let r0 = parse_row(log).unwrap();
        let n0 = r0.encoded_len();
        lemma_parse_row_prefix(log, e);
        let le = log + e;
        let rest = log.subrange(n0 as int, log.len() as int);
        assert(le.subrange(n0 as int, le.len() as int) == rest + e);
        assert(log_well_formed(rest));
        lemma_replay_values_after_append(apply_row_value(vm, r0, strict), rest, r, strict);
        assert(parse_row(le) == Some(r0));
    }
}

/// Whether every row of `s` that stores a value carries the checksum of
/// its payload.
pub open spec fn log_checksums_hold(s: Seq<u8>) -> bool
    decreases s.len(),
{
    if s.len() == 0 {
        true
    } else {
        match parse_row(s) {
            Some(r) => (r.timestamp == 0 || checksum_holds(r)) && log_checksums_hold(
                s.subrange(r.encoded_len() as int, s.len() as int),
            ),
            None => true,
        }
    }
}

/// Appending a row that stores a value under its own checksum, or a row
/// that deletes, keeps every row's checksum intact.
pub proof fn lemma_checksums_hold_after_append(log: Seq<u8>, r: DiskRowView)
    requires
        log_well_formed(log),
        log_checksums_hold(log),
        r.sizes_match(),
        r.timestamp == 0 || checksum_holds(r),
    ensures
        log_checksums_hold(log + r.encode()),
    decreases log.len(),
{
    let e = r.encode();
    lemma_row_roundtrip(r, Seq::<u8>::empty());
    assert(e + Seq::<u8>::empty() == e);
    let n = r.encoded_len();
    if log.len() == 0 {
        assert(log + e == e);
        assert(parse_row(e) == Some(r));
        let empty = e.subrange(n as int, e.len() as int);
        assert(empty.len() == 0);
        assert(log_checksums_hold(empty));
        assert(log_checksums_hold(log + e));
    } else {
        let r0 = parse_row(log).unwrap();
        let n0 = r0.encoded_len();
        lemma_parse_row_prefix(log, e);
        let le = log + e;
        let rest = log.subrange(n0 as int, log.len() as int);
        assert(le.subrange(n0 as int, le.len() as int) == rest + e);
        assert(log_well_formed(rest));
        assert(log_checksums_hold(rest));
        lemma_checksums_hold_after_append(rest, r);
        assert(parse_row(le) == Some(r0));
        assert(log_checksums_hold(le) == ((r0.timestamp == 0 || checksum_holds(r0))
            && log_checksums_hold(rest + e)));
    }
}

/// When every row's checksum is intact, reading with checksums checked
/// gives what reading without checking gives.
pub proof fn lemma_checked_replay_log_agrees(
    m: Map<Seq<u8>, InMemoryView>,
    vm: Map<Seq<u8>, Seq<u8>>,
    file_id: Seq<u8>,
    s: Seq<u8>,
    base: nat,
)
    requires
        log_checksums_hold(s),
    ensures
        replay_log(m, file_id, s, base, true) == replay_log(m, file_id, s, base, false),
        replay_log_values(vm, s, true) == replay_log_values(vm, s, false),
    decreases s.len(),
{
    if s.len() > 0 {
        if let Some(r) = parse_row(s) {
            let n = r.encoded_len();
            lemma_checked_replay_log_agrees(
                apply_row(m, file_id, r, base + n, false),
                apply_row_value(vm, r, false),
                file_id,
                s.subrange(n as int, s.len() as int),
                base + n,
            );
        }
    }
}

/// When every row's checksum is intact in every data file, reading the files
/// with checksums checked gives what reading them without checking gives.
pub proof fn lemma_checked_replay_files_agrees(ids: Seq<Seq<u8>>, logs: Seq<Seq<u8>>)
    requires
        forall|i: int| 0 <= i < logs.len() ==> log_checksums_hold(#[trigger] logs[i]),
    ensures
        replay_files(Map::empty(), ids, logs, true) == replay_files(Map::empty(), ids, logs, false),
        replay_files_values(logs, true) == replay_files_values(logs, false),
    decreases logs.len(),
{
    if logs.len() > 0 {
        let logs0 = logs.drop_last();
        assert forall|i: int| 0 <= i < logs0.len() implies log_checksums_hold(#[trigger] logs0[i]) by {
            assert(logs0[i] == logs[i]);
        }
        lemma_checked_replay_files_agrees(ids.drop_last(), logs0);
        assert(log_checksums_hold(logs[logs.len() - 1]));
        lemma_checked_replay_log_agrees(
            replay_files(Map::empty(), ids.drop_last(), logs0, false),
            replay_files_values(logs0, false),
            ids.last(),
            logs.last(),
            0,
        );
    }
}

/// Whether some row of `s` that reading takes into account has key `k`.
pub open spec fn log_touches(s: Seq<u8>, k: Seq<u8>, strict: bool) -> bool
    decreases s.len(),
{
    if s.len() == 0 {
        false
    } else {
        match parse_row(s) {
            Some(r) => (row_admitted(r, strict) && r.key == k) || log_touches(
                s.subrange(r.encoded_len() as int, s.len() as int),
                k,
                strict,
            ),
            None => false,
        }
    }
}

/// What reading a data file gives for a key that its rows touch does not
/// depend on what came before: the key is absent, or it lies in that file
/// with the value of its last row. A key that no row touches keeps what it
/// had.
pub proof fn lemma_replay_frame(
    m1: Map<Seq<u8>, InMemoryView>,
    m2: Map<Seq<u8>, InMemoryView>,
    vm1: Map<Seq<u8>, Seq<u8>>,
    vm2: Map<Seq<u8>, Seq<u8>>,
    file_id: Seq<u8>,
    s: Seq<u8>,
    base: nat,
    strict: bool,
    k: Seq<u8>,
)
    ensures
        ({
            let r1 = replay_log(m1, file_id, s, base, strict);
            let r2 = replay_log(m2, file_id, s, base, strict);
            let v1 = replay_log_values(vm1, s, strict);
            let v2 = replay_log_values(vm2, s, strict);
            &&& log_touches(s, k, strict) ==> {
                &&& r1.contains_key(k) == r2.contains_key(k)
                &&& r1.contains_key(k) ==> r1[k] == r2[k] && r1[k].file_id == file_id
                &&& v1.contains_key(k) == v2.contains_key(k)
                &&& v1.contains_key(k) ==> v1[k] == v2[k]
                &&& r1.contains_key(k) == v1.contains_key(k)
            }
            &&& !log_touches(s, k, strict) ==> {
                &&& r1.contains_key(k) == m1.contains_key(k)
                &&& m1.contains_key(k) ==> r1[k] == m1[k]
                &&& v1.contains_key(k) == vm1.contains_key(k)
                &&& vm1.contains_key(k) ==> v1[k] == vm1[k]
            }
        }),
    decreases s.len(),
{
    if s.len() > 0 {
        if let Some(r) = parse_row(s) {
            let n = r.encoded_len();
            let rest = s.subrange(n as int, s.len() as int);
            let m1n = apply_row(m1, file_id, r, base + n, strict);
            let m2n = apply_row(m2, file_id, r, base + n, strict);
            let vm1n = apply_row_value(vm1, r, strict);
            let vm2n = apply_row_value(vm2, r, strict);
            lemma_replay_frame(m1n, m2n, vm1n, vm2n, file_id, rest, base + n, strict, k);
            lemma_replay_frame(m2n, m1n, vm2n, vm1n, file_id, rest, base + n, strict, k);
            assert(replay_log(m1, file_id, s, base, strict) == replay_log(
                m1n,
                file_id,
                rest,
                base + n,
                strict,
            ));
            assert(replay_log(m2, file_id, s, base, strict) == replay_log(
                m2n,
                file_id,
                rest,
                base + n,
                strict,
            ));
            assert(replay_log_values(vm1, s, strict) == replay_log_values(vm1n, rest, strict));
            assert(replay_log_values(vm2, s, strict) == replay_log_values(vm2n, rest, strict));
            assert(log_touches(s, k, strict) == ((row_admitted(r, strict) && r.key == k)
                || log_touches(rest, k, strict)));
            if !log_touches(rest, k, strict) {
                if row_admitted(r, strict) && r.key == k {
                    if r.timestamp == 0 {
                        assert(!m1n.contains_key(k) && !m2n.contains_key(k));
                        assert(!vm1n.contains_key(k) && !vm2n.contains_key(k));
                    } else {
                        assert(m1n.contains_key(k) && m2n.contains_key(k) && m1n[k] == m2n[k]);
                        assert(m1n[k].file_id == file_id);
                        assert(vm1n.contains_key(k) && vm2n.contains_key(k) && vm1n[k] == vm2n[k]);
                    }
                } else {
                    assert(m1n.contains_key(k) == m1.contains_key(k));
                    assert(m1.contains_key(k) ==> m1n[k] == m1[k]);
                    assert(vm1n.contains_key(k) == vm1.contains_key(k));
                    assert(vm1.contains_key(k) ==> vm1n[k] == vm1[k]);
                }
            }
        } else {
            assert(!log_touches(s, k, strict));
            assert(replay_log(m1, file_id, s, base, strict) == m1);
            assert(replay_log_values(vm1, s, strict) == vm1);
        }
    } else {
        assert(!log_touches(s, k, strict));
        assert(replay_log(m1, file_id, s, base, strict) == m1);
        assert(replay_log_values(vm1, s, strict) == vm1);
    }
}


/// Every location that reading a sequence of data files records names one
/// of those files.
pub proof fn lemma_replay_files_file_ids(ids: Seq<Seq<u8>>, logs: Seq<Seq<u8>>, strict: bool)
    requires
        ids.len() == logs.len(),
    ensures
        forall|k: Seq<u8>|
            #[trigger] replay_files(Map::empty(), ids, logs, strict).contains_key(k) ==> ids.contains(
                replay_files(Map::empty(), ids, logs, strict)[k].file_id,
            ),
    decreases logs.len(),
{
    if logs.len() > 0 {
        let ids0 = ids.drop_last();
        let logs0 = logs.drop_last();
        lemma_replay_files_file_ids(ids0, logs0, strict);
        let prev = replay_files(Map::empty(), ids0, logs0, strict);
        let vm = Map::<Seq<u8>, Seq<u8>>::empty();
        let all = replay_files(Map::empty(), ids, logs, strict);
        assert forall|k: Seq<u8>| #[trigger] all.contains_key(k) implies ids.contains(
            all[k].file_id,
        ) by {
            lemma_replay_frame(prev, prev, vm, vm, ids.last(), logs.last(), 0, strict, k);
            if all[k].file_id == ids.last() {
                assert(ids[ids.len() - 1] == all[k].file_id);
            } else {
                assert(prev.contains_key(k));
                let i = choose|i: int| 0 <= i < ids0.len() && ids0[i] == prev[k].file_id;
                assert(ids[i] == ids0[i]);
            }
        }
    }
}

} // verus!
