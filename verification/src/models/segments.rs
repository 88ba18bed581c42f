//! Data files: the ones that are full and only read, and the active one
//! that takes new rows.

use vstd::prelude::*;

verus! {

/// A data file that no longer takes rows, by its path as bytes.
#[derive(Debug)]
pub struct DataFile {
    pub file_path: Vec<u8>,
}

impl From<Vec<u8>> for DataFile {
    fn from(value: Vec<u8>) -> (r: Self)
        ensures
            r.file_path@ == value@,
    {
        DataFile { file_path: value }
    }
}

impl vstd::std_specs::convert::FromSpecImpl<Vec<u8>> for DataFile {
    open spec fn obeys_from_spec() -> bool {
        true
    }

    open spec fn from_spec(v: Vec<u8>) -> Self {
        DataFile { file_path: v }
    }
}

/// The data file that takes new rows: its path as bytes, and how
/// many bytes have been written to it.
#[derive(Debug)]
pub struct ActiveDataFile {
    pub file_path: Vec<u8>,
    pub current_file_size: u64,
}

impl ActiveDataFile {
    /// The active data file at `file_path`, newly created and empty.
    pub fn new(file_path: Vec<u8>) -> (r: Self)
        ensures
            r.file_path@ == file_path@,
            r.current_file_size == 0,
    {
        ActiveDataFile { file_path, current_file_size: 0 }
    }
}

/// The ending of a data file's name: `.bc.data`.
pub open spec fn data_suffix() -> Seq<u8> {
    seq![46u8, 98u8, 99u8, 46u8, 100u8, 97u8, 116u8, 97u8]
}

/// The decimal digits of `n`, as ASCII bytes, most significant first.
pub open spec fn decimal(n: nat) -> Seq<u8>
    decreases n,
{
    if n < 10 {
        seq![(48 + n) as u8]
    } else {
        decimal(n / 10).push((48 + n % 10) as u8)
    }
}

/// Appends the decimal digits of `n` to `buf`.
fn push_decimal(buf: &mut Vec<u8>, n: u128)
    ensures
        final(buf)@ == old(buf)@ + decimal(n as nat),
    decreases n,
{
    if n >= 10 {
        push_decimal(buf, n / 10);
    }
    buf.push(48u8 + (n % 10) as u8);
}

/// The name of a new data file created at `current_time` (milliseconds
/// since the Unix epoch): its decimal digits followed by `.bc.data`.
pub fn _get_default_new_data_entry(current_time: u128) -> (r: Vec<u8>)
    ensures
        r@ == decimal(current_time as nat) + data_suffix(),
{
    let mut name: Vec<u8> = Vec::new();
    push_decimal(&mut name, current_time);
    let suffix: [u8; 8] = [46u8, 98u8, 99u8, 46u8, 100u8, 97u8, 116u8, 97u8];
    let mut i: usize = 0;
    let ghost digits = name@;
    while i < 8
        invariant
            i <= 8,
            suffix@ == data_suffix(),
            name@ == digits + data_suffix().subrange(0, i as int),
        decreases 8 - i,
    {
        name.push(suffix[i]);
        i = i + 1;
        assert(data_suffix().subrange(0, i as int) == data_suffix().subrange(0, i - 1).push(
            data_suffix()[i - 1],
        ));
    }
    assert(data_suffix().subrange(0, 8) == data_suffix());
    name
}

/// Whether a data file of `file_size` bytes can still take rows.
pub fn _is_file_active(file_size: u64, max_file_size_in_bytes: u64) -> (r: bool)
    ensures
        r == (file_size <= max_file_size_in_bytes),
{
    file_size <= max_file_size_in_bytes
}

/// What the store needs to know of an entry of its directory: its path as
/// bytes, whether that path is valid UTF-8, whether it is a regular file,
/// and when it was created, in nanoseconds relative to the Unix epoch.
pub struct DirEntryInfo {
    pub path: Vec<u8>,
    pub path_is_utf8: bool,
    pub is_file: bool,
    pub created: i128,
}

/// Whether `p` ends with `.bc.data`.
pub open spec fn has_data_suffix(p: Seq<u8>) -> bool {
    p.len() >= 8 && p.subrange(p.len() - 8, p.len() as int) == data_suffix()
}

/// Whether the entry is a data file: a regular file whose path is valid
/// UTF-8 and ends with `.bc.data`.
pub open spec fn is_data_entry(e: DirEntryInfo) -> bool {
    e.is_file && e.path_is_utf8 && has_data_suffix(e.path@)
}

/// `order` lists, once each, the positions of the data files among
/// `entries`, in the order of their creation times, those created at the
/// same time in the order in which they come among `entries`.
pub open spec fn is_creation_order(entries: Seq<DirEntryInfo>, order: Seq<int>) -> bool {
    &&& forall|i: int|
        0 <= i < order.len() ==> 0 <= #[trigger] order[i] < entries.len() && is_data_entry(
            entries[order[i]],
        )
    &&& forall|i: int, j: int| 0 <= i < j < order.len() ==> #[trigger] order[i] != #[trigger] order[j]
    &&& forall|k: int|
        0 <= k < entries.len() && is_data_entry(#[trigger] entries[k]) ==> exists|i: int|
            0 <= i < order.len() && order[i] == k
    &&& forall|i: int, j: int|
        0 <= i < j < order.len() ==> {
            let a = #[trigger] entries[order[i]];
            let b = #[trigger] entries[order[j]];
            a.created < b.created || (a.created == b.created && order[i] < order[j])
        }
}

/// Whether `p` ends with `.bc.data`.
fn ends_with_data_suffix(p: &[u8]) -> (r: bool)
    ensures
        r == has_data_suffix(p@),
{
    let n = p.len();
    if n < 8 {
        return false;
    }
    let suffix: [u8; 8] = [46u8, 98u8, 99u8, 46u8, 100u8, 97u8, 116u8, 97u8];
    let mut i: usize = 0;
    while i < 8
        invariant
            n == p@.len(),
            n >= 8,
            i <= 8,
            suffix@ == data_suffix(),
            forall|j: int| 0 <= j < i ==> p@[n - 8 + j] == data_suffix()[j],
        decreases 8 - i,
    {
        if p[n - 8 + i] != suffix[i] {
            assert(p@.subrange(n - 8, n as int)[i as int] != data_suffix()[i as int]);
            return false;
        }
        i = i + 1;
    }
    assert(p@.subrange(n - 8, n as int) == data_suffix());
    true
}

/// The paths of the data files among `entries`, in the order of their
/// creation times (a stable order: entries created at the same time keep
/// the order in which they come).
pub fn _get_all_data_entries_in_dir(entries: &[DirEntryInfo]) -> (r: Vec<Vec<u8>>)
    ensures
        exists|order: Seq<int>|
            is_creation_order(entries@, order) && order.len() == r@.len() && forall|i: int|
                0 <= i < r@.len() ==> #[trigger] r@[i]@ == entries@[order[i]].path@,
{
    let mut r: Vec<Vec<u8>> = Vec::new();
    let mut keys: Vec<i128> = Vec::new();
    let ghost mut order: Seq<int> = Seq::empty();
    let mut k: usize = 0;
    while k < entries.len()
        invariant
            k <= entries@.len(),
            order.len() == r@.len(),
            keys@.len() == r@.len(),
            forall|i: int|
                0 <= i < order.len() ==> 0 <= #[trigger] order[i] < k && is_data_entry(
                    entries@[order[i]],
                ) && r@[i]@ == entries@[order[i]].path@ && keys@[i] == entries@[order[i]].created,
            forall|i: int, j: int|
                0 <= i < j < order.len() ==> #[trigger] order[i] != #[trigger] order[j],
            forall|q: int|
                0 <= q < k && is_data_entry(#[trigger] entries@[q]) ==> exists|i: int|
                    0 <= i < order.len() && order[i] == q,
            forall|i: int, j: int|
                0 <= i < j < order.len() ==> {
                    let a = #[trigger] entries@[order[i]];
                    let b = #[trigger] entries@[order[j]];
                    a.created < b.created || (a.created == b.created && order[i] < order[j])
                },
        decreases entries@.len() - k,
    {
        let e = &entries[k];
        if e.is_file && e.path_is_utf8 && ends_with_data_suffix(e.path.as_slice()) {
            let c = e.created;
            let mut p: usize = r.len();
            while p > 0 && keys[p - 1] > c
                invariant
                    p <= keys@.len(),
                    keys@.len() == order.len(),
                    forall|i: int|
                        0 <= i < order.len() ==> 0 <= #[trigger] order[i] < entries@.len()
                            && keys@[i] == entries@[order[i]].created,
                    forall|q: int| p <= q < keys@.len() ==> #[trigger] keys@[q] > c,
                decreases p,
            {
                p = p - 1;
            }
            let ghost old_order = order;
            let ghost old_r = r@;
            let ghost old_keys = keys@;
            r.insert(p, vstd::slice::slice_to_vec(e.path.as_slice()));
            keys.insert(p, c);
            proof {
                order = order.insert(p as int, k as int);
                assert forall|i: int| 0 <= i < order.len() implies 0 <= #[trigger] order[i] < k
                    + 1 && is_data_entry(entries@[order[i]]) && r@[i]@ == entries@[order[i]].path@
                    && keys@[i] == entries@[order[i]].created by {
                    if i < p {
                        assert(order[i] == old_order[i]);
                        assert(r@[i] == old_r[i]);
                        assert(keys@[i] == old_keys[i]);
                    } else if i > p {
                        assert(order[i] == old_order[i - 1]);
                        assert(r@[i] == old_r[i - 1]);
                        assert(keys@[i] == old_keys[i - 1]);
                    }
                }
                assert forall|i: int, j: int| 0 <= i < j < order.len() implies #[trigger] order[i]
                    != #[trigger] order[j] by {
                    if i != p && j != p {
                        let i0 = if i < p { i } else { i - 1 };
                        let j0 = if j < p { j } else { j - 1 };
                        assert(order[i] == old_order[i0]);
                        assert(order[j] == old_order[j0]);
                    } else if i == p {
                        assert(order[j] == old_order[j - 1]);
                    } else {
                        assert(order[i] == old_order[i]);
                    }
                }
                assert forall|q: int| 0 <= q < k + 1 && is_data_entry(#[trigger] entries@[q]) implies exists|
                    i: int,
                | 0 <= i < order.len() && order[i] == q by {
                    if q == k {
                        assert(order[p as int] == q);
                    } else {
                        let i0 = choose|i: int| 0 <= i < old_order.len() && old_order[i] == q;
                        if i0 < p {
                            assert(order[i0] == q);
                        } else {
                            assert(order[i0 + 1] == q);
                        }
                    }
                }
                assert forall|i: int, j: int| 0 <= i < j < order.len() implies {
                    let a = #[trigger] entries@[order[i]];
                    let b = #[trigger] entries@[order[j]];
                    a.created < b.created || (a.created == b.created && order[i] < order[j])
                } by {
                    if i != p && j != p {
                        let i0 = if i < p { i } else { i - 1 };
                        let j0 = if j < p { j } else { j - 1 };
                        assert(order[i] == old_order[i0]);
                        assert(order[j] == old_order[j0]);
                    } else if i == p {
                        assert(order[j] == old_order[j - 1]);
                        assert(old_keys[j - 1] > c);
                    } else {
                        assert(order[i] == old_order[i]);
                        if p > 0 && i < p - 1 {
                            assert(entries@[old_order[i]].created <= entries@[old_order[p - 1]].created);
                        }
                    }
                }
            }
        }
        k = k + 1;
    }
    assert(is_creation_order(entries@, order));
    assert(forall|i: int| 0 <= i < r@.len() ==> #[trigger] r@[i]@ == entries@[order[i]].path@);
    r
}

/// The data files among `entries`, oldest first.
pub fn get_all_segments(entries: &[DirEntryInfo]) -> (r: Vec<DataFile>)
    ensures
        exists|order: Seq<int>|
            is_creation_order(entries@, order) && order.len() == r@.len() && forall|i: int|
                0 <= i < r@.len() ==> #[trigger] r@[i].file_path@ == entries@[order[i]].path@,
{
    let data_entries = _get_all_data_entries_in_dir(entries);
    let ghost order = choose|order: Seq<int>|
        is_creation_order(entries@, order) && order.len() == data_entries@.len() && forall|i: int|
            0 <= i < data_entries@.len() ==> #[trigger] data_entries@[i]@
                == entries@[order[i]].path@;
    let mut inactive_data_files: Vec<DataFile> = Vec::new();
    let mut i: usize = 0;
    while i < data_entries.len()
        invariant
            i <= data_entries@.len(),
            inactive_data_files@.len() == i,
            forall|j: int|
                0 <= j < i ==> #[trigger] inactive_data_files@[j].file_path@ == data_entries@[j]@,
        decreases data_entries@.len() - i,
    {
        inactive_data_files.push(DataFile::from(vstd::slice::slice_to_vec(data_entries[i].as_slice())));
        i = i + 1;
    }
    assert forall|j: int| 0 <= j < inactive_data_files@.len() implies #[trigger] inactive_data_files@[j].file_path@
        == entries@[order[j]].path@ by {
        assert(data_entries@[j]@ == entries@[order[j]].path@);
    }
    inactive_data_files
}


/// A path is a data file's exactly when its last eight bytes are
/// `.bc.data`, byte by byte; a path ending in any other eight bytes, such
/// as `.bc.hint`, is not.
pub proof fn lemma_data_suffix_bytes(p: Seq<u8>)
    ensures
        has_data_suffix(p) <==> (p.len() >= 8 && p[p.len() - 8] == 46u8 && p[p.len() - 7] == 98u8
            && p[p.len() - 6] == 99u8 && p[p.len() - 5] == 46u8 && p[p.len() - 4] == 100u8
            && p[p.len() - 3] == 97u8 && p[p.len() - 2] == 116u8 && p[p.len() - 1] == 97u8),
{
    if p.len() >= 8 {
        let t = p.subrange(p.len() - 8, p.len() as int);
        assert(t[0] == p[p.len() - 8] && t[1] == p[p.len() - 7] && t[2] == p[p.len() - 6]
            && t[3] == p[p.len() - 5] && t[4] == p[p.len() - 4] && t[5] == p[p.len() - 3]
            && t[6] == p[p.len() - 2] && t[7] == p[p.len() - 1]);
        if p[p.len() - 8] == 46u8 && p[p.len() - 7] == 98u8 && p[p.len() - 6] == 99u8
            && p[p.len() - 5] == 46u8 && p[p.len() - 4] == 100u8 && p[p.len() - 3] == 97u8
            && p[p.len() - 2] == 116u8 && p[p.len() - 1] == 97u8 {
            assert(t =~= data_suffix());
        }
    }
}

} // verus!
