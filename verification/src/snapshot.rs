use std::collections::HashMap;
use vstd::prelude::*;

use crate::event::ProcessId;
use crate::text::{hex_of, hex_string, join_path, path_join};
use crate::trace_log::{zstd_compressed, zstd_decode, zstd_decompressed, zstd_encode, LogError, COMPRESSION_LEVEL};

verus! {

/// Memory snapshot with delta compression
#[derive(Debug, Clone)]
pub struct Snapshot {
    pub sequence_number: u64,
    pub timestamp_ns: u64,
    pub process_id: ProcessId,
    pub snapshot_type: SnapshotType,
}

#[derive(Debug, Clone)]
pub enum SnapshotType {
    /// Full memory snapshot
    Full {
        memory_regions: Vec<MemoryRegion>,
        register_state: RegisterState,
        thread_states: HashMap<u64, ThreadState>,
    },
    /// Delta from previous snapshot
    Delta {
        base_sequence: u64,
        memory_diffs: Vec<MemoryDiff>,
        register_diffs: Vec<RegisterDiff>,
        thread_state_changes: HashMap<u64, ThreadState>,
    },
}

#[derive(Debug, Clone)]
pub struct MemoryRegion {
    pub start_addr: u64,
    pub size: usize,
    /// rwx bits
    pub permissions: u8,
    pub data: Vec<u8>,
}

#[derive(Debug, Clone)]
pub struct MemoryDiff {
    pub address: u64,
    pub old_value: Vec<u8>,
    pub new_value: Vec<u8>,
}

#[derive(Debug, Clone)]
pub struct RegisterState {
    pub registers: HashMap<String, u64>,
    pub flags: u64,
    pub instruction_pointer: u64,
    pub stack_pointer: u64,
}

#[derive(Debug, Clone)]
pub struct RegisterDiff {
    pub register_name: String,
    pub old_value: u64,
    pub new_value: u64,
}

#[derive(Debug, Clone)]
pub struct ThreadState {
    pub thread_id: u64,
    pub stack_pointer: u64,
    pub instruction_pointer: u64,
    pub state: ThreadExecutionState,
}

#[derive(Debug, Clone, Copy, PartialEq, Eq, Structural)]
pub enum ThreadExecutionState {
    Running,
    Blocked,
    Waiting,
    Terminated,
}

/// The number of leading bytes that both images have.
pub open spec fn common_len(old: Seq<u8>, new: Seq<u8>) -> int {
    if old.len() <= new.len() { old.len() as int } else { new.len() as int }
}

/// Byte `i` lies in both images and differs between them.
pub open spec fn byte_differs(old: Seq<u8>, new: Seq<u8>, i: int) -> bool {
    0 <= i < common_len(old, new) && old[i] != new[i]
}

/// Byte `i` differs and the byte before it (if any) does not: a changed region starts here.
pub open spec fn is_run_start(old: Seq<u8>, new: Seq<u8>, i: int) -> bool {
    byte_differs(old, new, i) && (i == 0 || !byte_differs(old, new, i - 1))
}

/// The first index at or after `s` whose byte does not differ (or the end of the common part).
pub open spec fn run_end(old: Seq<u8>, new: Seq<u8>, s: int) -> int
    decreases common_len(old, new) - s,
{
    if byte_differs(old, new, s) {
        run_end(old, new, s + 1)
    } else {
        s
    }
}

/// The starts of the changed regions below index `k`, in increasing order.
pub open spec fn run_starts(old: Seq<u8>, new: Seq<u8>, k: int) -> Seq<int>
    decreases k,
{
    if k <= 0 {
        Seq::empty()
    } else if is_run_start(old, new, k - 1) {
        run_starts(old, new, k - 1).push(k - 1)
    } else {
        run_starts(old, new, k - 1)
    }
}

/// The starts of all changed regions of the common part.
pub open spec fn all_run_starts(old: Seq<u8>, new: Seq<u8>) -> Seq<int> {
    run_starts(old, new, common_len(old, new))
}

/// `d` describes the changed region that starts at index `s`.
pub open spec fn describes_run(d: MemoryDiff, old: Seq<u8>, new: Seq<u8>, base_addr: u64, s: int) -> bool {
    &&& d.address == base_addr + s
    &&& d.old_value@ == old.subrange(s, run_end(old, new, s))
    &&& d.new_value@ == new.subrange(s, run_end(old, new, s))
}

/// Every changed region starts at an address that fits in 64 bits.
pub open spec fn diff_addresses_fit(old: Seq<u8>, new: Seq<u8>, base_addr: u64) -> bool {
    forall|i: int| #[trigger] is_run_start(old, new, i) ==> base_addr + i <= u64::MAX
}

/// The diff list that `compute_memory_diff` returns: one entry per maximal changed region.
pub open spec fn is_memory_diff(diffs: Seq<MemoryDiff>, old: Seq<u8>, new: Seq<u8>, base_addr: u64) -> bool {
    let starts = all_run_starts(old, new);
    &&& diffs.len() == starts.len()
    &&& forall|k: int| 0 <= k < diffs.len() ==> describes_run(#[trigger] diffs[k], old, new, base_addr, starts[k])
}

/// `image` with `bytes` written over it from index `offset` on.
pub open spec fn patch(image: Seq<u8>, offset: int, bytes: Seq<u8>) -> Seq<u8> {
    Seq::new(image.len(), |i: int| if offset <= i < offset + bytes.len() { bytes[i - offset] } else { image[i] })
}

/// `image` (which starts at `base_addr`) after writing each diff in order: its new bytes
/// if `forward`, else its old bytes.
pub open spec fn apply_diffs(image: Seq<u8>, diffs: Seq<MemoryDiff>, base_addr: u64, forward: bool) -> Seq<u8>
    decreases diffs.len(),
{
    if diffs.len() == 0 {
        image
    } else {
        let d = diffs.last();
        patch(
            apply_diffs(image, diffs.drop_last(), base_addr, forward),
            d.address - base_addr,
            if forward { d.new_value@ } else { d.old_value@ },
        )
    }
}

proof fn lemma_run_starts_facts(old: Seq<u8>, new: Seq<u8>, k: int)
    requires
        k >= 0,
    ensures
        ({
            let rs = run_starts(old, new, k);
            &&& forall|t: int| 0 <= t < rs.len() ==> 0 <= #[trigger] rs[t] < k && is_run_start(old, new, rs[t])
            &&& forall|t1: int, t2: int| 0 <= t1 < t2 < rs.len() ==> #[trigger] rs[t1] < #[trigger] rs[t2]
            &&& forall|j: int| 0 <= j < k && #[trigger] is_run_start(old, new, j) ==> rs.contains(j)
        }),
    decreases k,
{
    if k > 0 {
        lemma_run_starts_facts(old, new, k - 1);
        let prev = run_starts(old, new, k - 1);
        let rs = run_starts(old, new, k);
        if is_run_start(old, new, k - 1) {
            assert(rs == prev.push(k - 1));
            assert forall|j: int| 0 <= j < k && #[trigger] is_run_start(old, new, j) implies rs.contains(j) by {
                if j < k - 1 {
                    assert(prev.contains(j));
                    let t = choose|t: int| 0 <= t < prev.len() && prev[t] == j;
                    assert(rs[t] == j);
                } else {
                    assert(rs[prev.len() as int] == j);
                }
            }
        }
    }
}

proof fn lemma_run_end_facts(old: Seq<u8>, new: Seq<u8>, s: int)
    requires
        0 <= s <= common_len(old, new),
    ensures
        s <= run_end(old, new, s) <= common_len(old, new),
        forall|j: int| s <= j < run_end(old, new, s) ==> #[trigger] byte_differs(old, new, j),
        !byte_differs(old, new, run_end(old, new, s)),
    decreases common_len(old, new) - s,
{
    if byte_differs(old, new, s) {
        lemma_run_end_facts(old, new, s + 1);
    }
}

proof fn lemma_find_run_start(old: Seq<u8>, new: Seq<u8>, a: int, j: int)
    requires
        a < j,
        a == -1 || !byte_differs(old, new, a),
        byte_differs(old, new, j),
    ensures
        exists|r: int| a < r <= j && #[trigger] is_run_start(old, new, r),
    decreases j - a,
{
    if j - 1 > a && byte_differs(old, new, j - 1) {
        lemma_find_run_start(old, new, a, j - 1);
        let r = choose|r: int| a < r <= j - 1 && #[trigger] is_run_start(old, new, r);
        assert(a < r <= j);
    } else {
        assert(is_run_start(old, new, j));
    }
}

/// Where the `k`-th gap between changed regions begins: the start, or the end of region `k - 1`.
spec fn gap_start(old: Seq<u8>, new: Seq<u8>, k: int) -> int {
    if k == 0 {
        0
    } else {
        run_end(old, new, all_run_starts(old, new)[k - 1])
    }
}

/// Where the `k`-th gap between changed regions ends: region `k`, or the end of the common part.
spec fn gap_end(old: Seq<u8>, new: Seq<u8>, k: int) -> int {
    if k < all_run_starts(old, new).len() {
        all_run_starts(old, new)[k]
    } else {
        common_len(old, new)
    }
}

proof fn lemma_gap_unchanged(old: Seq<u8>, new: Seq<u8>, k: int)
    requires
        0 <= k <= all_run_starts(old, new).len(),
    ensures
        forall|j: int| gap_start(old, new, k) <= j < gap_end(old, new, k) ==> !#[trigger] byte_differs(old, new, j),
        0 <= gap_start(old, new, k) <= gap_end(old, new, k) <= common_len(old, new),
{
    let m = common_len(old, new);
    let rs = all_run_starts(old, new);
    lemma_run_starts_facts(old, new, m);
    let a = if k == 0 { -1 } else { run_end(old, new, rs[k - 1]) };
    if k > 0 {
        lemma_run_end_facts(old, new, rs[k - 1]);
    }
    assert forall|j: int| gap_start(old, new, k) <= j < gap_end(old, new, k) implies !#[trigger] byte_differs(old, new, j) by {
        if byte_differs(old, new, j) {
            if k > 0 && j == a {
                assert(false);
            }
            lemma_find_run_start(old, new, a, j);
            let r = choose|r: int| a < r <= j && #[trigger] is_run_start(old, new, r);
            assert(0 <= r < m);
            assert(rs.contains(r));
            let t = choose|t: int| 0 <= t < rs.len() && rs[t] == r;
            if t < k {
                if t < k - 1 {
                    assert(rs[t] < rs[k - 1]);
                }
                assert(r <= rs[k - 1]);
                assert(false);
            } else if k < rs.len() {
                if t > k {
                    assert(rs[k] < rs[t]);
                }
                assert(rs[k] <= r);
                assert(false);
            } else {
                assert(false);
            }
        }
    }
    if k > 0 && k < rs.len() {
        assert(rs[k - 1] < rs[k]);
        lemma_run_end_facts(old, new, rs[k - 1]);
        if run_end(old, new, rs[k - 1]) > rs[k] {
            assert(byte_differs(old, new, rs[k]));
            assert(byte_differs(old, new, rs[k] - 1));
            assert(!is_run_start(old, new, rs[k]));
            assert(false);
        }
    }
}

/// Writing a memory diff's new bytes over the old image, region after region, gives the new
/// image; writing its old bytes over the new image gives the old one (over the bytes that both
/// images have).
pub proof fn lemma_memory_diff_patches(old: Seq<u8>, new: Seq<u8>, base_addr: u64, diffs: Seq<MemoryDiff>)
    requires
        is_memory_diff(diffs, old, new, base_addr),
    ensures
        apply_diffs(old.take(common_len(old, new)), diffs, base_addr, true) == new.take(common_len(old, new)),
        apply_diffs(new.take(common_len(old, new)), diffs, base_addr, false) == old.take(common_len(old, new)),
{
    lemma_memory_diff_patches_one_way(old, new, base_addr, diffs, true);
    lemma_memory_diff_patches_one_way(old, new, base_addr, diffs, false);
}

proof fn lemma_run_end_on_prefixes(old: Seq<u8>, new: Seq<u8>, s: int)
    requires
        0 <= s <= common_len(old, new),
    ensures
        run_end(old.take(common_len(old, new)), new.take(common_len(old, new)), s) == run_end(old, new, s),
    decreases common_len(old, new) - s,
{
    let m = common_len(old, new);
    let (o, n) = (old.take(m), new.take(m));
    assert(common_len(o, n) == m);
    if s < m {
        assert(o[s] == old[s] && n[s] == new[s]);
        if byte_differs(old, new, s) {
            lemma_run_end_on_prefixes(old, new, s + 1);
        }
    }
}

proof fn lemma_run_starts_on_prefixes(old: Seq<u8>, new: Seq<u8>, k: int)
    requires
        0 <= k <= common_len(old, new),
    ensures
        run_starts(old.take(common_len(old, new)), new.take(common_len(old, new)), k) == run_starts(old, new, k),
    decreases k,
{
    let m = common_len(old, new);
    let (o, n) = (old.take(m), new.take(m));
    assert(common_len(o, n) == m);
    if k > 0 {
        lemma_run_starts_on_prefixes(old, new, k - 1);
        assert(o[k - 1] == old[k - 1] && n[k - 1] == new[k - 1]);
        if k >= 2 {
            assert(o[k - 2] == old[k - 2] && n[k - 2] == new[k - 2]);
        }
        assert(is_run_start(o, n, k - 1) == is_run_start(old, new, k - 1));
    }
}

proof fn lemma_same_run_on_prefixes(old: Seq<u8>, new: Seq<u8>, st: int)
    requires
        0 <= st <= common_len(old, new),
    ensures
        ({
            let m = common_len(old, new);
            let e = run_end(old, new, st);
            &&& run_end(old.take(m), new.take(m), st) == e
            &&& old.subrange(st, e) == old.take(m).subrange(st, e)
            &&& new.subrange(st, e) == new.take(m).subrange(st, e)
        }),
{
    let m = common_len(old, new);
    lemma_run_end_on_prefixes(old, new, st);
    lemma_run_end_facts(old, new, st);
    let e = run_end(old, new, st);
    assert(old.subrange(st, e) =~= old.take(m).subrange(st, e));
    assert(new.subrange(st, e) =~= new.take(m).subrange(st, e));
}

/// Bytes past the shorter image never reach a memory diff: the diff of two images is the
/// diff of their common parts, so images that agree on their common part have an empty diff.
pub proof fn lemma_memory_diff_ignores_tails(old: Seq<u8>, new: Seq<u8>, base_addr: u64, diffs: Seq<MemoryDiff>)
    ensures
        is_memory_diff(diffs, old, new, base_addr) == is_memory_diff(
            diffs,
            old.take(common_len(old, new)),
            new.take(common_len(old, new)),
            base_addr,
        ),
        old.take(common_len(old, new)) == new.take(common_len(old, new)) && is_memory_diff(
            diffs,
            old,
            new,
            base_addr,
        ) ==> diffs.len() == 0,
{
    let m = common_len(old, new);
    let (o, n) = (old.take(m), new.take(m));
    assert(common_len(o, n) == m);
    lemma_run_starts_on_prefixes(old, new, m);
    lemma_run_starts_facts(old, new, m);
    let starts = all_run_starts(old, new);
    assert(is_memory_diff(diffs, old, new, base_addr) == is_memory_diff(diffs, o, n, base_addr)) by {
        if is_memory_diff(diffs, old, new, base_addr) {
            assert forall|k: int| 0 <= k < diffs.len() implies describes_run(#[trigger] diffs[k], o, n, base_addr, all_run_starts(o, n)[k]) by {
                assert(describes_run(diffs[k], old, new, base_addr, starts[k]));
                lemma_same_run_on_prefixes(old, new, starts[k]);
            }
        }
        if is_memory_diff(diffs, o, n, base_addr) {
            assert forall|k: int| 0 <= k < diffs.len() implies describes_run(#[trigger] diffs[k], old, new, base_addr, starts[k]) by {
                assert(describes_run(diffs[k], o, n, base_addr, all_run_starts(o, n)[k]));
                lemma_same_run_on_prefixes(old, new, starts[k]);
            }
        }
    }
    if o == n && starts.len() > 0 {
        let st = starts[0];
        assert(is_run_start(old, new, st));
        assert(o[st] == old[st] && n[st] == new[st]);
    }
}

/// `src` is the image that patching starts from, `tgt` the one it should reach.
spec fn patch_source(old: Seq<u8>, new: Seq<u8>, forward: bool) -> Seq<u8> {
    if forward { old.take(common_len(old, new)) } else { new.take(common_len(old, new)) }
}

spec fn patch_target(old: Seq<u8>, new: Seq<u8>, forward: bool) -> Seq<u8> {
    if forward { new.take(common_len(old, new)) } else { old.take(common_len(old, new)) }
}

proof fn lemma_patch_prefix(
    old: Seq<u8>,
    new: Seq<u8>,
    base_addr: u64,
    diffs: Seq<MemoryDiff>,
    forward: bool,
    k: int,
)
    requires
        is_memory_diff(diffs, old, new, base_addr),
        0 <= k <= diffs.len(),
    ensures
        ({
            let m = common_len(old, new);
            let src = patch_source(old, new, forward);
            let tgt = patch_target(old, new, forward);
            let img = apply_diffs(src, diffs.take(k), base_addr, forward);
            &&& img.len() == m
            &&& forall|i: int| 0 <= i < m ==> #[trigger] img[i] == (if i < gap_start(old, new, k) { tgt[i] } else { src[i] })
        }),
    decreases k,
{
    let m = common_len(old, new);
    let src = patch_source(old, new, forward);
    let tgt = patch_target(old, new, forward);
    let rs = all_run_starts(old, new);
    if k == 0 {
        assert(diffs.take(0) =~= Seq::<MemoryDiff>::empty());
    } else {
        lemma_patch_prefix(old, new, base_addr, diffs, forward, k - 1);
        lemma_run_starts_facts(old, new, m);
        let img = apply_diffs(src, diffs.take(k - 1), base_addr, forward);
        let s = rs[k - 1];
        let d = diffs[k - 1];
        assert(describes_run(d, old, new, base_addr, s));
        assert(0 <= s < m);
        lemma_run_end_facts(old, new, s);
        lemma_gap_unchanged(old, new, k - 1);
        let e = run_end(old, new, s);
        assert(diffs.take(k).drop_last() =~= diffs.take(k - 1));
        assert(diffs.take(k).last() == d);
        let bytes = if forward { d.new_value@ } else { d.old_value@ };
        assert(bytes.len() == e - s);
        let next = apply_diffs(src, diffs.take(k), base_addr, forward);
        assert(next == patch(img, s, bytes));
        assert(gap_start(old, new, k) == e);
        assert(gap_end(old, new, k - 1) == s);
        assert forall|i: int| 0 <= i < m implies #[trigger] next[i] == (if i < e { tgt[i] } else { src[i] }) by {
            if s <= i < e {
                assert(bytes[i - s] == (if forward { new[i] } else { old[i] }));
            } else if gap_start(old, new, k - 1) <= i < s {
                assert(!byte_differs(old, new, i));
            }
        }
    }
}

proof fn lemma_memory_diff_patches_one_way(
    old: Seq<u8>,
    new: Seq<u8>,
    base_addr: u64,
    diffs: Seq<MemoryDiff>,
    forward: bool,
)
    requires
        is_memory_diff(diffs, old, new, base_addr),
    ensures
        apply_diffs(patch_source(old, new, forward), diffs, base_addr, forward) == patch_target(old, new, forward),
{
    let m = common_len(old, new);
    let k = diffs.len() as int;
    lemma_patch_prefix(old, new, base_addr, diffs, forward, k);
    lemma_gap_unchanged(old, new, k);
    assert(diffs.take(k) =~= diffs);
    let src = patch_source(old, new, forward);
    let tgt = patch_target(old, new, forward);
    let img = apply_diffs(src, diffs, base_addr, forward);
    assert forall|i: int| 0 <= i < m implies #[trigger] img[i] == tgt[i] by {
        if i >= gap_start(old, new, k) {
            assert(!byte_differs(old, new, i));
        }
    }
    assert(img =~= tgt);
}

proof fn lemma_run_starts_unchanged(old: Seq<u8>, new: Seq<u8>, a: int, b: int)
    requires
        0 <= a <= b,
        forall|j: int| a <= j < b ==> !#[trigger] is_run_start(old, new, j),
    ensures
        run_starts(old, new, b) == run_starts(old, new, a),
    decreases b - a,
{
    if a < b {
        lemma_run_starts_unchanged(old, new, a, b - 1);
    }
}

proof fn lemma_run_end_skips(old: Seq<u8>, new: Seq<u8>, s: int, e: int)
    requires
        s <= e,
        forall|j: int| s <= j < e ==> #[trigger] byte_differs(old, new, j),
    ensures
        run_end(old, new, s) == run_end(old, new, e),
    decreases e - s,
{
    if s < e {
        lemma_run_end_skips(old, new, s + 1, e);
    }
}

fn copy_range(bytes: &[u8], start: usize, end: usize) -> (out: Vec<u8>)
    requires
        start <= end <= bytes@.len(),
    ensures
        out@ == bytes@.subrange(start as int, end as int),
{
    vstd::slice::slice_to_vec(vstd::slice::slice_subrange(bytes, start, end))
}

/// The index of the snapshot in `snaps` with the largest sequence number at or before
/// `sequence_number` (the last recorded one where several share it), or -1 if there is none.
pub open spec fn closest_at_or_before(snaps: Seq<Snapshot>, sequence_number: u64) -> int
    decreases snaps.len(),
{
    if snaps.len() == 0 {
        -1
    } else {
        let best = closest_at_or_before(snaps.drop_last(), sequence_number);
        if snaps.last().sequence_number <= sequence_number && (best < 0
            || snaps[best].sequence_number <= snaps.last().sequence_number) {
            snaps.len() - 1
        } else {
            best
        }
    }
}

/// The file name of the snapshot taken at `sequence_number`: sixteen lowercase hexadecimal digits.
pub open spec fn snapshot_file_name(sequence_number: u64) -> Seq<char> {
    seq!['s', 'n', 'a', 'p', 's', 'h', 'o', 't', '_'] + hex_of(sequence_number as nat, 16) + seq![
        '.',
        's',
        'n',
        'a',
        'p',
    ]
}

/// The snapshot that `closest_at_or_before` picks qualifies, no qualifying snapshot has a
/// larger sequence number, and none recorded after it has the same one; there is none exactly
/// when no snapshot qualifies.
pub proof fn lemma_closest_at_or_before(snaps: Seq<Snapshot>, sequence_number: u64)
    ensures
        ({
            let j = closest_at_or_before(snaps, sequence_number);
            &&& -1 <= j < snaps.len()
            &&& j >= 0 ==> snaps[j].sequence_number <= sequence_number
            &&& forall|k: int| 0 <= k < snaps.len() && #[trigger] snaps[k].sequence_number <= sequence_number
                ==> j >= 0 && snaps[k].sequence_number <= snaps[j].sequence_number
            &&& j >= 0 ==> forall|k: int| j < k < snaps.len() ==> #[trigger] snaps[k].sequence_number
                != snaps[j].sequence_number
        }),
    decreases snaps.len(),
{
    if snaps.len() > 0 {
        let prev = snaps.drop_last();
        lemma_closest_at_or_before(prev, sequence_number);
        let j = closest_at_or_before(snaps, sequence_number);
        let best = closest_at_or_before(prev, sequence_number);
        assert forall|k: int| 0 <= k < snaps.len() && #[trigger] snaps[k].sequence_number <= sequence_number
            implies j >= 0 && snaps[k].sequence_number <= snaps[j].sequence_number by {
            if k < snaps.len() - 1 {
                assert(snaps[k] == prev[k]);
                if best >= 0 {
                    assert(snaps[best] == prev[best]);
                }
            } else if best >= 0 {
                assert(snaps[best] == prev[best]);
            }
        }
        if j >= 0 && j < snaps.len() - 1 {
            assert(snaps[j] == prev[j]);
            assert forall|k: int| j < k < snaps.len() implies #[trigger] snaps[k].sequence_number
                != snaps[j].sequence_number by {
                if k < snaps.len() - 1 {
                    assert(snaps[k] == prev[k]);
                }
            }
        }
    }
}

/// A lookup at the sequence number of the snapshot recorded last returns that snapshot, even
/// where an earlier snapshot has the same sequence number.
pub proof fn lemma_lookup_finds_last_recorded(snaps: Seq<Snapshot>, snapshot: Snapshot)
    ensures
        closest_at_or_before(snaps.push(snapshot), snapshot.sequence_number) == snaps.len(),
        snaps.push(snapshot)[snaps.len() as int] == snapshot,
{
    let all = snaps.push(snapshot);
    assert(all.drop_last() =~= snaps);
    lemma_closest_at_or_before(snaps, snapshot.sequence_number);
}

/// Snapshot manager for creating and restoring checkpoints: the snapshots taken so far,
/// the directory their files go to, and the number of events between snapshots.
pub struct SnapshotManager {
    snapshots: Vec<Snapshot>,
    snapshot_dir: String,
    snapshot_interval: u64,
}

impl SnapshotManager {
    pub closed spec fn spec_snapshots(&self) -> Seq<Snapshot> {
        self.snapshots@
    }

    pub closed spec fn spec_dir(&self) -> Seq<char> {
        self.snapshot_dir@
    }

    pub closed spec fn spec_interval(&self) -> u64 {
        self.snapshot_interval
    }

    /// A manager with no snapshots yet, writing to `snapshot_dir`.
    pub fn new(snapshot_dir: String, snapshot_interval: u64) -> (r: Self)
        ensures
            r.spec_snapshots() == Seq::<Snapshot>::empty(),
            r.spec_dir() == snapshot_dir@,
            r.spec_interval() == snapshot_interval,
    {
        SnapshotManager { snapshots: Vec::new(), snapshot_dir, snapshot_interval }
    }

    /// Keeps a snapshot whose file was written.
    pub fn record_snapshot(&mut self, snapshot: Snapshot)
        ensures
            final(self).spec_snapshots() == old(self).spec_snapshots().push(snapshot),
            final(self).spec_dir() == old(self).spec_dir(),
            final(self).spec_interval() == old(self).spec_interval(),
    {
        self.snapshots.push(snapshot);
    }

    /// The bytes to store for a snapshot whose serialized form is `serialized`: its zstd frame,
    /// which decompresses back to `serialized`.
    pub fn compress_snapshot(serialized: &[u8]) -> (r: Result<Vec<u8>, LogError>)
        ensures
            r is Ok,
            r matches Ok(v) ==> v@ == zstd_compressed(serialized@, COMPRESSION_LEVEL),
            r matches Ok(v) ==> zstd_decompressed(v@) == Some(serialized@),
    {
        match zstd_encode(serialized, COMPRESSION_LEVEL) {
            Ok(v) => Ok(v),
            Err(_) => Err(LogError::Compress),
        }
    }

    /// The serialized snapshot that stored bytes hold.
    pub fn decompress_snapshot(stored: &[u8]) -> (r: Result<Vec<u8>, LogError>)
        ensures
            r matches Ok(v) ==> zstd_decompressed(stored@) == Some(v@),
            r is Err ==> zstd_decompressed(stored@) is None && r == Err::<Vec<u8>, LogError>(LogError::Decompress),
    {
        match zstd_decode(stored) {
            Ok(v) => Ok(v),
            Err(_) => Err(LogError::Decompress),
        }
    }

    /// Get the closest snapshot before or at the given sequence number
    pub fn get_snapshot(&self, sequence_number: u64) -> (r: Option<&Snapshot>)
        ensures
            match r {
                Some(x) => {
                    &&& self.spec_snapshots().contains(*x)
                    &&& x.sequence_number <= sequence_number
                    &&& forall|k: int| 0 <= k < self.spec_snapshots().len() && #[trigger] self.spec_snapshots()[k].sequence_number
                        <= sequence_number ==> self.spec_snapshots()[k].sequence_number <= x.sequence_number
                },
                None => forall|k: int| 0 <= k < self.spec_snapshots().len() ==> #[trigger] self.spec_snapshots()[k].sequence_number
                    > sequence_number,
            },
            ({
                let j = closest_at_or_before(self.spec_snapshots(), sequence_number);
                match r {
                    Some(x) => {
                        &&& j >= 0 && *x == self.spec_snapshots()[j]
                        &&& forall|k: int| j < k < self.spec_snapshots().len()
                            ==> #[trigger] self.spec_snapshots()[k].sequence_number != x.sequence_number
                    },
                    None => j == -1,
                }
            }),
    {
        let n = self.snapshots.len();
        let mut best: Option<usize> = None;
        for i in 0..n
            invariant
                n == self.snapshots@.len(),
                match best {
                    Some(b) => b < i && b == closest_at_or_before(self.snapshots@.subrange(0, i as int), sequence_number),
                    None => closest_at_or_before(self.snapshots@.subrange(0, i as int), sequence_number) == -1,
                },
        {
            let ghost prefix = self.snapshots@.subrange(0, i + 1);
            assert(prefix.drop_last() =~= self.snapshots@.subrange(0, i as int));
            assert(prefix.last() == self.snapshots@[i as int]);
            let candidate = self.snapshots[i].sequence_number;
            if candidate <= sequence_number {
                match best {
                    Some(b) => {
                        assert(prefix[b as int] == self.snapshots@[b as int]);
                        if self.snapshots[b].sequence_number <= candidate {
                            best = Some(i);
                        }
                    },
                    None => {
                        best = Some(i);
                    },
                }
            } else {
                match best {
                    Some(b) => {
                        assert(prefix[b as int] == self.snapshots@[b as int]);
                    },
                    None => {},
                }
            }
        }
        proof {
            assert(self.snapshots@.subrange(0, n as int) =~= self.snapshots@);
            lemma_closest_at_or_before(self.snapshots@, sequence_number);
        }
        match best {
            Some(b) => {
                assert(self.snapshots@.contains(self.snapshots@[b as int]));
                Some(&self.snapshots[b])
            },
            None => None,
        }
    }

    /// Check if a snapshot should be created at this sequence number
    pub fn should_snapshot(&self, sequence_number: u64) -> (r: bool)
        requires
            self.spec_interval() > 0,
        ensures
            r == (sequence_number % self.spec_interval() == 0),
    {
        sequence_number % self.snapshot_interval == 0
    }

    /// The path of the file that holds the snapshot taken at `sequence_number`.
    pub fn snapshot_path(&self, sequence_number: u64) -> (r: String)
        ensures
            r@ == path_join(self.spec_dir(), snapshot_file_name(sequence_number)),
    {
        let mut name = String::from_str("snapshot_");
        let digits = hex_string(sequence_number as u128, 16);
        name.append(digits.as_str());
        name.append(".snap");
        proof {
            reveal_strlit("snapshot_");
            reveal_strlit(".snap");
            assert(name@ =~= snapshot_file_name(sequence_number));
        }
        join_path(self.snapshot_dir.as_str(), name.as_str())
    }

    /// The number of events between snapshots.
    pub fn snapshot_interval(&self) -> (r: u64)
        ensures
            r == self.spec_interval(),
    {
        self.snapshot_interval
    }

    /// The directory that snapshot files go to.
    pub fn snapshot_dir(&self) -> (r: &str)
        ensures
            r@ == self.spec_dir(),
    {
        self.snapshot_dir.as_str()
    }

    /// Get total number of snapshots
    pub fn snapshot_count(&self) -> (r: usize)
        ensures
            r == self.spec_snapshots().len(),
    {
        self.snapshots.len()
    }

    /// Compute memory diff between two memory regions
    pub fn compute_memory_diff(old: &[u8], new: &[u8], base_addr: u64) -> (diffs: Vec<MemoryDiff>)
        requires
            diff_addresses_fit(old@, new@, base_addr),
        ensures
            is_memory_diff(diffs@, old@, new@, base_addr),
    {
        let m = if old.len() < new.len() { old.len() } else { new.len() };
        let mut diffs: Vec<MemoryDiff> = Vec::new();
        let mut i: usize = 0;
        while i < m
            invariant
                m == common_len(old@, new@),
                i <= m,
                diff_addresses_fit(old@, new@, base_addr),
                byte_differs(old@, new@, i as int) ==> is_run_start(old@, new@, i as int),
                diffs@.len() == run_starts(old@, new@, i as int).len(),
                forall|k: int| 0 <= k < diffs@.len() ==>
                    describes_run(#[trigger] diffs@[k], old@, new@, base_addr, run_starts(old@, new@, i as int)[k]),
            decreases m - i,
        {
            if old[i] != new[i] {
                let start = i;
                let mut end = i;
                while end < m && old[end] != new[end]
                    invariant
                        m == common_len(old@, new@),
                        start <= end <= m,
                        forall|j: int| start <= j < end ==> #[trigger] byte_differs(old@, new@, j),
                    decreases m - end,
                {
                    end = end + 1;
                }
                proof {
                    lemma_run_end_skips(old@, new@, start as int, end as int);
                    assert(run_end(old@, new@, start as int) == end);
                    assert forall|j: int| start + 1 <= j < end implies !#[trigger] is_run_start(old@, new@, j) by {
                        assert(byte_differs(old@, new@, j - 1));
                    }
                    lemma_run_starts_unchanged(old@, new@, start + 1, end as int);
                    assert(is_run_start(old@, new@, start as int));
                }
                let old_value = copy_range(old, start, end);
                let new_value = copy_range(new, start, end);
                let diff = MemoryDiff { address: base_addr + start as u64, old_value, new_value };
                let ghost before = diffs@;
                diffs.push(diff);
                proof {
                    let starts = run_starts(old@, new@, end as int);
                    assert(starts == run_starts(old@, new@, start as int).push(start as int));
                    assert forall|k: int| 0 <= k < diffs@.len() implies
                        describes_run(#[trigger] diffs@[k], old@, new@, base_addr, starts[k]) by {
                        if k < before.len() {
                            assert(diffs@[k] == before[k]);
                        }
                    }
                }
                i = end;
            } else {
                i = i + 1;
            }
        }
        diffs
    }
}

} // verus!
