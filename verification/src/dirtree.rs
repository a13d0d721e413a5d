//! The directory tree: one record of statistics for each directory seen,
//! held in the order of their paths.
//!
//! The direct counts of a directory speak of the entries that lie in it;
//! the recursive counts, once rolled up, of everything below it: the
//! directory's own direct counts and the recursive counts of those of its
//! children that have a record.

use vstd::prelude::*;
use crate::lex::{bytes_lt, compare_bytes, copy_bytes, find_key, keys_of, lemma_insert_key_sorted,
    lemma_lt_asymmetric, lemma_lt_irreflexive, lemma_prefix_lt, rank_in, sorted_keys, ByteOrder};
use crate::path::{has_parent, is_within, lemma_parent_len_bounds, parent, parent_of};

verus! {

/// The oldest and the newest age seen among files, in a directory itself
/// and in all that lies below it. Ages are in nanoseconds.
#[derive(Debug, Clone, Copy)]
pub struct AgeRange {
    pub oldest_file_direct: Option<u128>,
    pub oldest_file_recursive: Option<u128>,
    pub newest_file_direct: Option<u128>,
    pub newest_file_recursive: Option<u128>,
}

/// The higher of a stored age and a new one.
pub open spec fn older_of(store: Option<u128>, new: u128) -> Option<u128> {
    match store {
        Some(s) => if new > s {
            Some(new)
        } else {
            Some(s)
        },
        None => Some(new),
    }
}

/// The lower of a stored age and a new one.
pub open spec fn newer_of(store: Option<u128>, new: u128) -> Option<u128> {
    match store {
        Some(s) => if new < s {
            Some(new)
        } else {
            Some(s)
        },
        None => Some(new),
    }
}

impl AgeRange {
    /// A range in which no age was seen yet.
    pub fn new() -> (r: AgeRange)
        ensures
            r.oldest_file_direct is None,
            r.oldest_file_recursive is None,
            r.newest_file_direct is None,
            r.newest_file_recursive is None,
    {
        AgeRange {
            oldest_file_direct: None,
            oldest_file_recursive: None,
            newest_file_direct: None,
            newest_file_recursive: None,
        }
    }

    /// Takes the age of a file that lies in the directory itself.
    pub fn update_direct(&mut self, new: u128)
        ensures
            final(self).oldest_file_direct == older_of(old(self).oldest_file_direct, new),
            final(self).newest_file_direct == newer_of(old(self).newest_file_direct, new),
            final(self).oldest_file_recursive == old(self).oldest_file_recursive,
            final(self).newest_file_recursive == old(self).newest_file_recursive,
    {
        self.oldest_file_direct = Self::max_age(self.oldest_file_direct, new);
        self.newest_file_direct = Self::min_age(self.newest_file_direct, new);
    }

    /// Takes the age of a file that lies anywhere below the directory.
    pub fn update_recursive(&mut self, new: u128)
        ensures
            final(self).oldest_file_recursive == older_of(old(self).oldest_file_recursive, new),
            final(self).newest_file_recursive == newer_of(old(self).newest_file_recursive, new),
            final(self).oldest_file_direct == old(self).oldest_file_direct,
            final(self).newest_file_direct == old(self).newest_file_direct,
    {
        self.oldest_file_recursive = Self::max_age(self.oldest_file_recursive, new);
        self.newest_file_recursive = Self::min_age(self.newest_file_recursive, new);
    }

    /// The lower of a stored age and a new one.
    pub fn min_age(store: Option<u128>, new: u128) -> (r: Option<u128>)
        ensures
            r == newer_of(store, new),
    {
        match store {
            None => Some(new),
            Some(s) => if new < s {
                Some(new)
            } else {
                Some(s)
            },
        }
    }

    /// The higher of a stored age and a new one.
    pub fn max_age(store: Option<u128>, new: u128) -> (r: Option<u128>)
        ensures
            r == older_of(store, new),
    {
        match store {
            None => Some(new),
            Some(s) => if new > s {
                Some(new)
            } else {
                Some(s)
            },
        }
    }
}

/// The statistics of one directory.
#[derive(Debug, Clone, Copy)]
pub struct DirStats {
    pub size_directly: u64,
    pub size_recursively: u64,
    pub file_count_directly: u64,
    pub file_count_recursively: u64,
    pub dir_count_directly: u64,
    pub dir_count_recursively: u64,
    pub age_range: AgeRange,
}

/// The statistics of a directory of which nothing was counted.
pub open spec fn zero_stats() -> DirStats {
    DirStats {
        size_directly: 0,
        size_recursively: 0,
        file_count_directly: 0,
        file_count_recursively: 0,
        dir_count_directly: 0,
        dir_count_recursively: 0,
        age_range: AgeRange {
            oldest_file_direct: None,
            oldest_file_recursive: None,
            newest_file_direct: None,
            newest_file_recursive: None,
        },
    }
}

impl DirStats {
    /// Statistics with every count at 0.
    pub fn new() -> (r: DirStats)
        ensures
            r == zero_stats(),
    {
        DirStats {
            size_recursively: 0,
            size_directly: 0,
            file_count_recursively: 0,
            file_count_directly: 0,
            dir_count_directly: 0,
            dir_count_recursively: 0,
            age_range: AgeRange::new(),
        }
    }
}

/// What is counted of a directory: bytes, files, directories.
pub enum Measure {
    Size,
    Files,
    Dirs,
}

/// The direct count of `st` in the measure `m`.
pub open spec fn direct(st: DirStats, m: Measure) -> nat {
    match m {
        Measure::Size => st.size_directly as nat,
        Measure::Files => st.file_count_directly as nat,
        Measure::Dirs => st.dir_count_directly as nat,
    }
}

/// The recursive count of `st` in the measure `m`.
pub open spec fn recursive(st: DirStats, m: Measure) -> nat {
    match m {
        Measure::Size => st.size_recursively as nat,
        Measure::Files => st.file_count_recursively as nat,
        Measure::Dirs => st.dir_count_recursively as nat,
    }
}

/// Two statistics that differ at most in their recursive counts.
pub open spec fn same_direct(a: DirStats, b: DirStats) -> bool {
    &&& a.size_directly == b.size_directly
    &&& a.file_count_directly == b.file_count_directly
    &&& a.dir_count_directly == b.dir_count_directly
    &&& a.age_range == b.age_range
}

/// One record of the tree, as contracts see it.
pub struct DirRecord {
    pub path: Seq<u8>,
    pub stats: DirStats,
}

/// Records in the strict order of their paths, so that no path is twice
/// among them.
pub open spec fn sorted_by_path(s: Seq<DirRecord>) -> bool {
    forall|i: int, j: int| 0 <= i < j < s.len() ==> bytes_lt((#[trigger] s[i]).path, (#[trigger] s[j]).path)
}

/// Whether some record of `s` has the path `p`.
pub open spec fn has_path(s: Seq<DirRecord>, p: Seq<u8>) -> bool {
    exists|i: int| 0 <= i < s.len() && (#[trigger] s[i]).path == p
}

/// The index of the record of `s` with the path `p`.
pub open spec fn index_of(s: Seq<DirRecord>, p: Seq<u8>) -> int {
    choose|i: int| 0 <= i < s.len() && (#[trigger] s[i]).path == p
}

/// The statistics recorded in `s` for the path `p`, if any.
pub open spec fn stats_of(s: Seq<DirRecord>, p: Seq<u8>) -> Option<DirStats> {
    if has_path(s, p) {
        Some(s[index_of(s, p)].stats)
    } else {
        None
    }
}

/// Whether the directory `c` lies directly in the directory `d`.
pub open spec fn is_child(c: Seq<u8>, d: Seq<u8>) -> bool {
    has_parent(c) && parent_of(c) == d
}

/// The recursive counts, summed over those records of `s` from index `lo`
/// on that are children of `d`.
pub open spec fn child_sum_from(s: Seq<DirRecord>, d: Seq<u8>, lo: int, m: Measure) -> nat
    decreases s.len() - lo,
{
    if lo < 0 || lo >= s.len() {
        0
    } else if is_child(s[lo].path, d) {
        recursive(s[lo].stats, m) + child_sum_from(s, d, lo + 1, m)
    } else {
        child_sum_from(s, d, lo + 1, m)
    }
}

/// The recursive counts, summed over the children of `d` that have a
/// record in `s`.
pub open spec fn child_sum(s: Seq<DirRecord>, d: Seq<u8>, m: Measure) -> nat {
    child_sum_from(s, d, 0, m)
}

/// The direct counts of the first `n` records, summed.
pub open spec fn sum_direct(s: Seq<DirRecord>, n: int, m: Measure) -> nat
    decreases n,
{
    if n <= 0 || n > s.len() {
        0
    } else {
        sum_direct(s, n - 1, m) + direct(s[n - 1].stats, m)
    }
}

/// The recursive counts of the first `n` records, summed.
pub open spec fn sum_recursive(s: Seq<DirRecord>, n: int, m: Measure) -> nat
    decreases n,
{
    if n <= 0 || n > s.len() {
        0
    } else {
        sum_recursive(s, n - 1, m) + recursive(s[n - 1].stats, m)
    }
}

/// The direct counts of all records, summed.
pub open spec fn total_direct(s: Seq<DirRecord>, m: Measure) -> nat {
    sum_direct(s, s.len() as int, m)
}

/// Every record's recursive count is its direct count and the recursive
/// counts of its children from index `lo` on.
pub open spec fn partition_from(s: Seq<DirRecord>, lo: int, m: Measure) -> bool {
    forall|j: int| 0 <= j < s.len() ==> recursive((#[trigger] s[j]).stats, m) == direct(s[j].stats, m)
        + child_sum_from(s, s[j].path, lo, m)
}

/// No recursive count is above the sum of all direct counts.
pub open spec fn recursive_bounded(s: Seq<DirRecord>, m: Measure) -> bool {
    forall|j: int| 0 <= j < s.len() ==> recursive((#[trigger] s[j]).stats, m) <= total_direct(s, m)
}

/// The tree after the roll-up: in each measure, the recursive count of a
/// directory is its direct count and the recursive counts of its children.
pub open spec fn rolled_up(s: Seq<DirRecord>) -> bool {
    &&& partition_from(s, 0, Measure::Size)
    &&& partition_from(s, 0, Measure::Files)
    &&& partition_from(s, 0, Measure::Dirs)
    &&& recursive_bounded(s, Measure::Size)
    &&& recursive_bounded(s, Measure::Files)
    &&& recursive_bounded(s, Measure::Dirs)
}

/// Two trees with the same paths and the same direct counts.
pub open spec fn same_directs(a: Seq<DirRecord>, b: Seq<DirRecord>) -> bool {
    &&& a.len() == b.len()
    &&& forall|j: int| 0 <= j < a.len() ==> (#[trigger] a[j]).path == b[j].path
        && same_direct(a[j].stats, b[j].stats)
}

/// The paths of the records, in their order.
pub open spec fn paths_of(s: Seq<DirRecord>) -> Seq<Seq<u8>> {
    Seq::new(s.len(), |i: int| s[i].path)
}

/// The records `s`, with a record of every count at 0 for `p` if it had
/// none.
pub open spec fn with_path(s: Seq<DirRecord>, p: Seq<u8>) -> Seq<DirRecord> {
    if has_path(s, p) {
        s
    } else {
        s.insert(rank_in(paths_of(s), p), DirRecord { path: p, stats: zero_stats() })
    }
}

/// The records `s`, with a record for `p` and for every directory above
/// it up to `root`.
pub open spec fn with_chain(s: Seq<DirRecord>, root: Seq<u8>, p: Seq<u8>) -> Seq<DirRecord>
    decreases p.len(),
{
    let t = with_path(s, p);
    if p != root && has_parent(p) {
        with_chain(t, root, parent_of(p))
    } else {
        t
    }
}

/// Every record is `root` or lies below it.
pub open spec fn all_within(s: Seq<DirRecord>, root: Seq<u8>) -> bool {
    forall|i: int| 0 <= i < s.len() ==> is_within(root, (#[trigger] s[i]).path)
}

/// Every record but that of `root` has the record of its parent beside it.
pub open spec fn closed_under_parent(s: Seq<DirRecord>, root: Seq<u8>) -> bool {
    forall|i: int| 0 <= i < s.len() ==> (#[trigger] s[i]).path == root || (has_parent(s[i].path) && has_path(
        s,
        parent_of(s[i].path),
    ))
}

/// As `closed_under_parent`, but the parent of `open` may still be missing.
pub open spec fn closed_except(s: Seq<DirRecord>, root: Seq<u8>, open: Seq<u8>) -> bool {
    forall|i: int| 0 <= i < s.len() ==> (#[trigger] s[i]).path == root || s[i].path == open || (has_parent(
        s[i].path,
    ) && has_path(s, parent_of(s[i].path)))
}

/// Records are sorted exactly when their paths are.
pub proof fn lemma_sorted_paths(s: Seq<DirRecord>)
    ensures
        sorted_by_path(s) == sorted_keys(paths_of(s)),
{
    let ks = paths_of(s);
    if sorted_by_path(s) {
        assert forall|i: int, j: int| 0 <= i < j < ks.len()
            implies bytes_lt(#[trigger] ks[i], #[trigger] ks[j]) by {
            assert(bytes_lt(s[i].path, s[j].path));
        }
    }
    if sorted_keys(ks) {
        assert forall|i: int, j: int| 0 <= i < j < s.len()
            implies bytes_lt((#[trigger] s[i]).path, (#[trigger] s[j]).path) by {
            assert(bytes_lt(ks[i], ks[j]));
        }
    }
}

/// A record made for a path leaves the other records, the sums of direct
/// counts, and the place of all records below `root`.
pub proof fn lemma_with_path_keeps(s: Seq<DirRecord>, p: Seq<u8>, root: Seq<u8>)
    ensures
        has_path(with_path(s, p), p),
        total_direct(with_path(s, p), Measure::Size) == total_direct(s, Measure::Size),
        total_direct(with_path(s, p), Measure::Files) == total_direct(s, Measure::Files),
        total_direct(with_path(s, p), Measure::Dirs) == total_direct(s, Measure::Dirs),
        all_within(s, root) && is_within(root, p) ==> all_within(with_path(s, p), root),
{
    let t = with_path(s, p);
    if !has_path(s, p) {
        let at = rank_in(paths_of(s), p);
        crate::lex::lemma_rank_bounds(paths_of(s), p);
        let r = DirRecord { path: p, stats: zero_stats() };
        assert(t[at] == r);
        lemma_sum_direct_insert(s, at, r, t.len() as int, Measure::Size);
        lemma_sum_direct_insert(s, at, r, t.len() as int, Measure::Files);
        lemma_sum_direct_insert(s, at, r, t.len() as int, Measure::Dirs);
        if all_within(s, root) && is_within(root, p) {
            assert forall|i: int| 0 <= i < t.len() implies is_within(root, (#[trigger] t[i]).path) by {
                if i < at {
                    assert(t[i] == s[i]);
                } else if i > at {
                    assert(t[i] == s[i - 1]);
                }
            }
        }
    }
}

/// A record made for a path leaves every path that had a record with one.
pub proof fn lemma_has_path_kept(s: Seq<DirRecord>, p: Seq<u8>, q: Seq<u8>)
    requires
        has_path(s, q),
    ensures
        has_path(with_path(s, p), q),
{
    let t = with_path(s, p);
    if !has_path(s, p) {
        let at = rank_in(paths_of(s), p);
        crate::lex::lemma_rank_bounds(paths_of(s), p);
        let j = index_of(s, q);
        if j < at {
            assert(t[j] == s[j]);
        } else {
            assert(t[j + 1] == s[j]);
        }
    }
}

/// A record of `with_path(s, p)` for another path than `p` is a record of
/// `s`.
pub proof fn lemma_with_path_back(s: Seq<DirRecord>, p: Seq<u8>, i: int)
    requires
        0 <= i < with_path(s, p).len(),
        with_path(s, p)[i].path != p,
    ensures
        exists|j: int| 0 <= j < s.len() && s[j] == with_path(s, p)[i],
{
    let t = with_path(s, p);
    if !has_path(s, p) {
        let at = rank_in(paths_of(s), p);
        crate::lex::lemma_rank_bounds(paths_of(s), p);
        if i < at {
            assert(s[i] == t[i]);
        } else if i > at {
            assert(s[i - 1] == t[i]);
        } else {
            assert(t[i].path == p);
        }
    } else {
        assert(s[i] == t[i]);
    }
}

/// Where only the parent of `open` may be missing, a record made for that
/// parent leaves only its own parent missing.
pub proof fn lemma_with_path_closed(s: Seq<DirRecord>, p: Seq<u8>, root: Seq<u8>, open: Seq<u8>)
    requires
        closed_except(s, root, open),
        open == root || (has_parent(open) && parent_of(open) == p),
    ensures
        closed_except(with_path(s, p), root, p),
{
    let t = with_path(s, p);
    assert forall|i: int| 0 <= i < t.len() implies (#[trigger] t[i]).path == root || t[i].path == p
        || (has_parent(
        t[i].path,
    ) && has_path(t, parent_of(t[i].path))) by {
        if t[i].path != p && t[i].path != root {
            lemma_with_path_back(s, p, i);
            let j = choose|j: int| 0 <= j < s.len() && s[j] == t[i];
            assert(s[j].path == root || s[j].path == open || (has_parent(s[j].path) && has_path(
                s,
                parent_of(s[j].path),
            )));
            if s[j].path == open {
                lemma_with_path_keeps(s, p, root);
            } else {
                lemma_has_path_kept(s, p, parent_of(s[j].path));
            }
        }
    }
}

/// In sorted records two different indices hold different paths.
pub proof fn lemma_sorted_distinct(s: Seq<DirRecord>, i: int, j: int)
    requires
        sorted_by_path(s),
        0 <= i < s.len(),
        0 <= j < s.len(),
        s[i].path == s[j].path,
    ensures
        i == j,
{
    if i < j {
        lemma_lt_irreflexive(s[i].path);
        assert(bytes_lt(s[i].path, s[j].path));
    } else if j < i {
        lemma_lt_irreflexive(s[j].path);
        assert(bytes_lt(s[j].path, s[i].path));
    }
}

/// In sorted records a path stands behind every path that comes before it.
pub proof fn lemma_sorted_index_order(s: Seq<DirRecord>, i: int, j: int)
    requires
        sorted_by_path(s),
        0 <= i < s.len(),
        0 <= j < s.len(),
        bytes_lt(s[i].path, s[j].path),
    ensures
        i < j,
{
    if j < i {
        assert(bytes_lt(s[j].path, s[i].path));
        lemma_lt_asymmetric(s[j].path, s[i].path);
    } else if i == j {
        lemma_lt_irreflexive(s[i].path);
    }
}

/// In sorted records the record of a parent stands before those of its
/// children.
pub proof fn lemma_parent_before_child(s: Seq<DirRecord>, pi: int, ci: int)
    requires
        sorted_by_path(s),
        0 <= pi < s.len(),
        0 <= ci < s.len(),
        is_child(s[ci].path, s[pi].path),
    ensures
        pi < ci,
{
    lemma_parent_len_bounds(s[ci].path);
    lemma_prefix_lt(s[pi].path, s[ci].path);
    lemma_sorted_index_order(s, pi, ci);
}

/// The sum over children from `lo` on looks only at the records from `lo`
/// on.
pub proof fn lemma_child_sum_frame(a: Seq<DirRecord>, b: Seq<DirRecord>, d: Seq<u8>, lo: int, m: Measure)
    requires
        a.len() == b.len(),
        forall|k: int| lo <= k < a.len() && 0 <= k ==> (#[trigger] a[k]).path == b[k].path && recursive(
            a[k].stats,
            m,
        ) == recursive(b[k].stats, m),
    ensures
        child_sum_from(a, d, lo, m) == child_sum_from(b, d, lo, m),
    decreases a.len() - lo,
{
    if 0 <= lo < a.len() {
        assert(a[lo].path == b[lo].path);
        lemma_child_sum_frame(a, b, d, lo + 1, m);
    }
}

/// Where no record from `lo` on is a child of `d`, the sum over them is 0.
pub proof fn lemma_child_sum_none(s: Seq<DirRecord>, d: Seq<u8>, lo: int, m: Measure)
    requires
        forall|k: int| lo <= k < s.len() && 0 <= k ==> !is_child((#[trigger] s[k]).path, d),
    ensures
        child_sum_from(s, d, lo, m) == 0,
    decreases s.len() - lo,
{
    if 0 <= lo < s.len() {
        assert(!is_child(s[lo].path, d));
        lemma_child_sum_none(s, d, lo + 1, m);
    }
}

/// The sum of direct counts looks only at paths and direct counts.
pub proof fn lemma_sum_direct_frame(a: Seq<DirRecord>, b: Seq<DirRecord>, n: int, m: Measure)
    requires
        a.len() == b.len(),
        forall|k: int| 0 <= k < n && k < a.len() ==> direct((#[trigger] a[k]).stats, m)
            == direct(b[k].stats, m),
    ensures
        sum_direct(a, n, m) == sum_direct(b, n, m),
    decreases n,
{
    if 0 < n <= a.len() {
        assert(direct(a[n - 1].stats, m) == direct(b[n - 1].stats, m));
        lemma_sum_direct_frame(a, b, n - 1, m);
    }
}

/// Where recursive counts equal direct counts, so do their sums.
pub proof fn lemma_sums_agree(s: Seq<DirRecord>, n: int, m: Measure)
    requires
        forall|k: int| 0 <= k < n && k < s.len() ==> recursive((#[trigger] s[k]).stats, m)
            == direct(s[k].stats, m),
    ensures
        sum_recursive(s, n, m) == sum_direct(s, n, m),
    decreases n,
{
    if 0 < n <= s.len() {
        assert(recursive(s[n - 1].stats, m) == direct(s[n - 1].stats, m));
        lemma_sums_agree(s, n - 1, m);
    }
}

/// A recursive count is at most any sum that it is part of.
pub proof fn lemma_sum_recursive_covers(s: Seq<DirRecord>, n: int, j: int, m: Measure)
    requires
        0 <= j < n <= s.len(),
    ensures
        recursive(s[j].stats, m) <= sum_recursive(s, n, m),
    decreases n,
{
    if j < n - 1 {
        lemma_sum_recursive_covers(s, n - 1, j, m);
    }
}

/// A direct count is at most any sum that it is part of.
pub proof fn lemma_sum_direct_covers(s: Seq<DirRecord>, n: int, j: int, m: Measure)
    requires
        0 <= j < n <= s.len(),
    ensures
        direct(s[j].stats, m) <= sum_direct(s, n, m),
    decreases n,
{
    if j < n - 1 {
        lemma_sum_direct_covers(s, n - 1, j, m);
    }
}

/// Raising the recursive count of one record raises the sums that hold it
/// by as much.
pub proof fn lemma_sum_recursive_raise(a: Seq<DirRecord>, b: Seq<DirRecord>, n: int, at: int, delta: nat,
    m: Measure)
    requires
        a.len() == b.len(),
        0 <= at < a.len(),
        0 <= n <= a.len(),
        forall|k: int| 0 <= k < n && k != at ==> recursive((#[trigger] a[k]).stats, m)
            == recursive(b[k].stats, m),
        recursive(b[at].stats, m) == recursive(a[at].stats, m) + delta,
    ensures
        sum_recursive(b, n, m) == sum_recursive(a, n, m) + if at < n {
            delta
        } else {
            0
        },
    decreases n,
{
    if n > 0 {
        lemma_sum_recursive_raise(a, b, n - 1, at, delta, m);
        if n - 1 != at {
            assert(recursive(a[n - 1].stats, m) == recursive(b[n - 1].stats, m));
        }
    }
}

/// Raising the direct count of one record raises the sums that hold it by
/// as much.
pub proof fn lemma_sum_direct_raise(a: Seq<DirRecord>, b: Seq<DirRecord>, n: int, at: int, delta: nat,
    m: Measure)
    requires
        a.len() == b.len(),
        0 <= at < a.len(),
        0 <= n <= a.len(),
        forall|k: int| 0 <= k < n && k != at ==> direct((#[trigger] a[k]).stats, m) == direct(b[k].stats, m),
        direct(b[at].stats, m) == direct(a[at].stats, m) + delta,
    ensures
        sum_direct(b, n, m) == sum_direct(a, n, m) + if at < n {
            delta
        } else {
            0
        },
    decreases n,
{
    if n > 0 {
        lemma_sum_direct_raise(a, b, n - 1, at, delta, m);
        if n - 1 != at {
            assert(direct(a[n - 1].stats, m) == direct(b[n - 1].stats, m));
        }
    }
}

/// A new record raises the sum of direct counts by its own.
pub proof fn lemma_sum_direct_insert(s: Seq<DirRecord>, at: int, r: DirRecord, n: int, m: Measure)
    requires
        0 <= at <= s.len(),
        0 <= n <= s.len() + 1,
    ensures
        sum_direct(s.insert(at, r), n, m) == if n <= at {
            sum_direct(s, n, m)
        } else {
            sum_direct(s, n - 1, m) + direct(r.stats, m)
        },
    decreases n,
{
    let t = s.insert(at, r);
    if n > 0 {
        lemma_sum_direct_insert(s, at, r, n - 1, m);
        if n - 1 < at {
            assert(t[n - 1] == s[n - 1]);
        } else if n - 1 == at {
            assert(t[n - 1] == r);
        } else {
            assert(t[n - 1] == s[n - 2]);
        }
    }
}

/// One step of the roll-up, where the record at `idx` has its parent at
/// `pi`: the parent's recursive count rises by that of the record.
#[verifier::rlimit(40)]
pub proof fn lemma_roll_step_found(a: Seq<DirRecord>, b: Seq<DirRecord>, idx: int, pi: int, m: Measure)
    requires
        sorted_by_path(a),
        0 <= pi < idx < a.len(),
        is_child(a[idx].path, a[pi].path),
        a.len() == b.len(),
        forall|j: int| 0 <= j < a.len() ==> (#[trigger] b[j]).path == a[j].path && direct(b[j].stats, m)
            == direct(
            a[j].stats,
            m,
        ),
        forall|j: int| 0 <= j < a.len() && j != pi ==> recursive((#[trigger] b[j]).stats, m)
            == recursive(a[j].stats, m),
        recursive(b[pi].stats, m) == recursive(a[pi].stats, m) + recursive(a[idx].stats, m),
        partition_from(a, idx + 1, m),
    ensures
        partition_from(b, idx, m),
        sum_recursive(b, idx, m) == sum_recursive(a, idx + 1, m),
{
    assert forall|j: int| 0 <= j < b.len() implies recursive((#[trigger] b[j]).stats, m)
        == direct(b[j].stats, m)
        + child_sum_from(b, b[j].path, idx, m) by {
        let d = b[j].path;
        assert(a[j].path == d);
        assert forall|k: int| idx + 1 <= k < a.len() && 0 <= k implies (#[trigger] a[k]).path == b[k].path
            && recursive(a[k].stats, m) == recursive(b[k].stats, m) by {
            assert(b[k].path == a[k].path);
        }
        lemma_child_sum_frame(a, b, d, idx + 1, m);
        assert(b[idx].path == a[idx].path);
        assert(recursive(b[idx].stats, m) == recursive(a[idx].stats, m));
        assert(recursive(a[j].stats, m) == direct(a[j].stats, m) + child_sum_from(a, a[j].path, idx + 1, m));
        if j == pi {
            assert(is_child(b[idx].path, d));
        } else {
            if is_child(b[idx].path, d) {
                lemma_sorted_distinct(a, j, pi);
            }
        }
    }
    assert forall|k: int| 0 <= k < idx && k != pi implies recursive((#[trigger] a[k]).stats, m) == recursive(
        b[k].stats,
        m,
    ) by {
        assert(recursive(b[k].stats, m) == recursive(a[k].stats, m));
    }
    lemma_sum_recursive_raise(a, b, idx, pi, recursive(a[idx].stats, m), m);
}

/// One step of the roll-up, where the parent of the record at `idx` has no
/// record: nothing changes.
pub proof fn lemma_roll_step_none(a: Seq<DirRecord>, idx: int, m: Measure)
    requires
        0 <= idx < a.len(),
        forall|j: int| 0 <= j < a.len() ==> !is_child(a[idx].path, (#[trigger] a[j]).path),
        partition_from(a, idx + 1, m),
    ensures
        partition_from(a, idx, m),
        sum_recursive(a, idx, m) <= sum_recursive(a, idx + 1, m),
{
    assert forall|j: int| 0 <= j < a.len() implies recursive((#[trigger] a[j]).stats, m)
        == direct(a[j].stats, m)
        + child_sum_from(a, a[j].path, idx, m) by {
        assert(!is_child(a[idx].path, a[j].path));
    }
}

/// The directory tree.
#[derive(Debug)]
pub struct DirTree {
    paths: Vec<Vec<u8>>,
    stats: Vec<DirStats>,
}

impl View for DirTree {
    type V = Seq<DirRecord>;

    closed spec fn view(&self) -> Seq<DirRecord> {
        Seq::new(self.paths@.len(), |i: int| DirRecord { path: self.paths@[i]@, stats: self.stats@[i] })
    }
}

impl DirTree {
    /// What every tree made here satisfies: its records stand in the order
    /// of their paths.
    pub closed spec fn wf(&self) -> bool {
        &&& self.paths@.len() == self.stats@.len()
        &&& sorted_by_path(self@)
    }

    /// The records of a tree stand in the order of their paths.
    pub proof fn lemma_wf_sorted(&self)
        requires
            self.wf(),
        ensures
            sorted_by_path(self@),
    {
    }

    /// A tree without records.
    pub fn new() -> (r: DirTree)
        ensures
            r.wf(),
            r@ == Seq::<DirRecord>::empty(),
    {
        let r = DirTree { paths: Vec::new(), stats: Vec::new() };
        proof {
            assert(r@ =~= Seq::<DirRecord>::empty());
        }
        r
    }

    /// Number of records.
    pub fn len(&self) -> (r: usize)
        requires
            self.wf(),
        ensures
            r == self@.len(),
    {
        self.paths.len()
    }

    /// Path of the `i`-th record.
    pub fn path_at(&self, i: usize) -> (r: &Vec<u8>)
        requires
            self.wf(),
            i < self@.len(),
        ensures
            r@ == self@[i as int].path,
    {
        &self.paths[i]
    }

    /// Statistics of the `i`-th record.
    pub fn stats_at(&self, i: usize) -> (r: DirStats)
        requires
            self.wf(),
            i < self@.len(),
        ensures
            r == self@[i as int].stats,
    {
        self.stats[i]
    }

    /// Looks for the record with the path `key`. Returns whether there is
    /// one, and its index; or else the index at which it would stand.
    pub fn find(&self, key: &Vec<u8>) -> (r: (bool, usize))
        requires
            self.wf(),
        ensures
            r.1 <= self@.len(),
            r.0 ==> r.1 < self@.len() && self@[r.1 as int].path == key@,
            r.0 == has_path(self@, key@),
            !r.0 ==> r.1 == rank_in(paths_of(self@), key@),
            !r.0 ==> forall|j: int| 0 <= j < r.1 ==> bytes_lt((#[trigger] self@[j]).path, key@),
            !r.0 ==> forall|j: int| r.1 <= j < self@.len() ==> bytes_lt(key@, (#[trigger] self@[j]).path),
    {
        let ghost s = self@;
        let ghost ks = keys_of(self.paths@);
        proof {
            assert(ks =~= paths_of(s));
            lemma_sorted_paths(s);
        }
        let r = find_key(&self.paths, key);
        proof {
            if ks.contains(key@) {
                let j = choose|j: int| 0 <= j < ks.len() && ks[j] == key@;
                assert(s[j].path == key@);
            }
            if has_path(s, key@) {
                let j = index_of(s, key@);
                assert(ks[j] == key@);
            }
            if !r.0 {
                assert forall|j: int| 0 <= j < r.1 implies bytes_lt((#[trigger] s[j]).path, key@) by {
                    assert(bytes_lt(ks[j], key@));
                }
                assert forall|j: int| r.1 <= j < s.len() implies bytes_lt(key@, (#[trigger] s[j]).path) by {
                    assert(bytes_lt(key@, ks[j]));
                }
            }
        }
        r
    }

    /// Index of the record with the path `key`; a record with every count
    /// at 0 is made for it if there was none.
    pub fn get_or_insert(&mut self, key: &Vec<u8>) -> (idx: usize)
        requires
            old(self).wf(),
        ensures
            final(self).wf(),
            idx < final(self)@.len(),
            final(self)@[idx as int].path == key@,
            final(self)@ == with_path(old(self)@, key@),
            !has_path(old(self)@, key@) ==> idx == rank_in(paths_of(old(self)@), key@),
    {
        let ghost s = self@;
        let (found, idx) = self.find(key);
        if found {
            return idx;
        }
        let p = copy_bytes(key);
        self.paths.insert(idx, p);
        self.stats.insert(idx, DirStats::new());
        proof {
            let r = DirRecord { path: key@, stats: zero_stats() };
            let t = s.insert(idx as int, r);
            assert(self@ =~= t);
            lemma_sorted_paths(s);
            assert forall|j: int| 0 <= j < idx implies bytes_lt(#[trigger] paths_of(s)[j], key@) by {
                assert(bytes_lt(s[j].path, key@));
            }
            assert forall|j: int| idx <= j < s.len() implies bytes_lt(key@, #[trigger] paths_of(s)[j]) by {
                assert(bytes_lt(key@, s[j].path));
            }
            lemma_insert_key_sorted(paths_of(s), key@, idx as int);
            assert(paths_of(t) =~= paths_of(s).insert(idx as int, key@));
            lemma_sorted_paths(t);
        }
        idx
    }

    /// Makes sure that `dir` and every directory above it up to `root`
    /// have a record; those that had none get one with every count at 0.
    #[verifier::rlimit(40)]
    pub fn ensure_chain(&mut self, root: &Vec<u8>, dir: &Vec<u8>)
        requires
            old(self).wf(),
            is_within(root@, dir@),
        ensures
            final(self).wf(),
            final(self)@ == with_chain(old(self)@, root@, dir@),
            has_path(final(self)@, dir@),
            total_direct(final(self)@, Measure::Size) == total_direct(old(self)@, Measure::Size),
            total_direct(final(self)@, Measure::Files) == total_direct(old(self)@, Measure::Files),
            total_direct(final(self)@, Measure::Dirs) == total_direct(old(self)@, Measure::Dirs),
            all_within(old(self)@, root@) ==> all_within(final(self)@, root@),
            closed_under_parent(old(self)@, root@) ==> closed_under_parent(final(self)@, root@),
    {
        let ghost s0 = self@;
        let mut cur = copy_bytes(dir);
        let ghost before = self@;
        let idx0 = self.get_or_insert(&cur);
        proof {
            lemma_with_path_keeps(before, cur@, root@);
            assert(self@[idx0 as int].path == dir@);
            if closed_under_parent(s0, root@) {
                lemma_with_path_closed(before, cur@, root@, root@);
            }
        }
        loop
            invariant
                self.wf(),
                is_within(root@, dir@),
                is_within(root@, cur@),
                has_path(self@, cur@),
                has_path(self@, dir@),
                with_chain(s0, root@, dir@) == if cur@ != root@ && has_parent(cur@) {
                    with_chain(self@, root@, parent_of(cur@))
                } else {
                    self@
                },
                total_direct(self@, Measure::Size) == total_direct(s0, Measure::Size),
                total_direct(self@, Measure::Files) == total_direct(s0, Measure::Files),
                total_direct(self@, Measure::Dirs) == total_direct(s0, Measure::Dirs),
                all_within(s0, root@) ==> all_within(self@, root@),
                closed_under_parent(s0, root@) ==> closed_except(self@, root@, cur@),
            ensures
                cur@ == root@ || !has_parent(cur@),
            decreases cur@.len(),
        {
            match compare_bytes(&cur, root) {
                ByteOrder::Equal => {
                    break;
                },
                _ => {},
            }
            let up = parent(&cur);
            match up {
                None => {
                    break;
                },
                Some(q) => {
                    let ghost a = self@;
                    let ghost c = cur@;
                    self.get_or_insert(&q);
                    proof {
                        lemma_parent_len_bounds(c);
                        lemma_with_path_keeps(a, q@, root@);
                        lemma_has_path_kept(a, q@, c);
                        lemma_has_path_kept(a, q@, dir@);
                        if closed_under_parent(s0, root@) {
                            lemma_with_path_closed(a, q@, root@, c);
                        }
                    }
                    cur = q;
                },
            }
        }
    }

    /// Adds to the direct counts of the `i`-th record.
    pub fn add_direct(&mut self, i: usize, size: u64, files: u64, dirs: u64)
        requires
            old(self).wf(),
            i < old(self)@.len(),
            old(self)@[i as int].stats.size_directly + size <= u64::MAX,
            old(self)@[i as int].stats.file_count_directly + files <= u64::MAX,
            old(self)@[i as int].stats.dir_count_directly + dirs <= u64::MAX,
        ensures
            final(self).wf(),
            final(self)@ == old(self)@.update(
                i as int,
                DirRecord {
                    path: old(self)@[i as int].path,
                    stats: raised(old(self)@[i as int].stats, size, files, dirs),
                },
            ),
    {
        let ghost s = self@;
        let mut st = self.stats[i];
        st.size_directly = st.size_directly + size;
        st.file_count_directly = st.file_count_directly + files;
        st.dir_count_directly = st.dir_count_directly + dirs;
        self.stats.set(i, st);
        proof {
            let t = s.update(
                i as int,
                DirRecord { path: s[i as int].path, stats: raised(s[i as int].stats, size, files, dirs) },
            );
            assert(self@ =~= t);
            assert forall|a: int, b: int| 0 <= a < b < t.len()
                implies bytes_lt((#[trigger] t[a]).path, (#[trigger] t[b]).path) by {
                assert(t[a].path == s[a].path);
                assert(t[b].path == s[b].path);
            }
        }
    }

    /// Computes the recursive counts of every record from the direct
    /// counts: each directory's recursive counts are its direct counts and
    /// the recursive counts of its children.
    #[verifier::rlimit(40)]
    pub fn roll_up(&mut self)
        requires
            old(self).wf(),
            total_direct(old(self)@, Measure::Size) <= u64::MAX,
            total_direct(old(self)@, Measure::Files) <= u64::MAX,
            total_direct(old(self)@, Measure::Dirs) <= u64::MAX,
        ensures
            final(self).wf(),
            same_directs(final(self)@, old(self)@),
            rolled_up(final(self)@),
            forall|i: int|
                0 <= i < final(self)@.len() ==> {
                    let st = (#[trigger] final(self)@[i]).stats;
                    &&& st.size_recursively >= st.size_directly
                    &&& st.file_count_recursively >= st.file_count_directly
                    &&& st.dir_count_recursively >= st.dir_count_directly
                },
    {
        let ghost s0 = self@;
        let n = self.paths.len();
        let mut i: usize = 0;
        while i < n
            invariant
                self.wf(),
                n == self.paths.len(),
                i <= n,
                same_directs(self@, s0),
                forall|j: int| 0 <= j < i ==> recursive((#[trigger] self@[j]).stats, Measure::Size)
                    == direct(self@[j].stats, Measure::Size),
                forall|j: int| 0 <= j < i ==> recursive((#[trigger] self@[j]).stats, Measure::Files)
                    == direct(self@[j].stats, Measure::Files),
                forall|j: int| 0 <= j < i ==> recursive((#[trigger] self@[j]).stats, Measure::Dirs)
                    == direct(self@[j].stats, Measure::Dirs),
            decreases n - i,
        {
            let ghost s = self@;
            let mut st = self.stats[i];
            st.size_recursively = st.size_directly;
            st.file_count_recursively = st.file_count_directly;
            st.dir_count_recursively = st.dir_count_directly;
            self.stats.set(i, st);
            proof {
                let t = self@;
                assert forall|j: int| 0 <= j < t.len() implies (#[trigger] t[j]).path == s[j].path
                    && (j != i ==> t[j].stats == s[j].stats) by {}
                assert forall|a: int, b: int| 0 <= a < b < t.len()
                    implies bytes_lt((#[trigger] t[a]).path, (#[trigger] t[b]).path) by {
                    assert(t[a].path == s[a].path);
                    assert(t[b].path == s[b].path);
                }
                assert forall|j: int| 0 <= j < t.len() implies (#[trigger] t[j]).path == s0[j].path
                    && same_direct(t[j].stats, s0[j].stats) by {
                    assert(s[j].path == s0[j].path && same_direct(s[j].stats, s0[j].stats));
                }
            }
            i = i + 1;
        }
        proof {
            let s = self@;
            lemma_sums_agree(s, n as int, Measure::Size);
            lemma_sums_agree(s, n as int, Measure::Files);
            lemma_sums_agree(s, n as int, Measure::Dirs);
            lemma_same_directs_total(s, s0);
            assert forall|j: int| 0 <= j < s.len() implies recursive((#[trigger] s[j]).stats, Measure::Size)
                == direct(s[j].stats, Measure::Size)
                    + child_sum_from(s, s[j].path, n as int, Measure::Size) by {}
            assert forall|j: int| 0 <= j < s.len() implies recursive((#[trigger] s[j]).stats, Measure::Files)
                == direct(s[j].stats, Measure::Files)
                    + child_sum_from(s, s[j].path, n as int, Measure::Files) by {}
            assert forall|j: int| 0 <= j < s.len() implies recursive((#[trigger] s[j]).stats, Measure::Dirs)
                == direct(s[j].stats, Measure::Dirs)
                    + child_sum_from(s, s[j].path, n as int, Measure::Dirs) by {}
        }
        let mut k: usize = n;
        while k > 0
            invariant
                self.wf(),
                n == self.paths.len(),
                k <= n,
                same_directs(self@, s0),
                total_direct(s0, Measure::Size) <= u64::MAX,
                total_direct(s0, Measure::Files) <= u64::MAX,
                total_direct(s0, Measure::Dirs) <= u64::MAX,
                partition_from(self@, k as int, Measure::Size),
                partition_from(self@, k as int, Measure::Files),
                partition_from(self@, k as int, Measure::Dirs),
                sum_recursive(self@, k as int, Measure::Size) <= total_direct(s0, Measure::Size),
                sum_recursive(self@, k as int, Measure::Files) <= total_direct(s0, Measure::Files),
                sum_recursive(self@, k as int, Measure::Dirs) <= total_direct(s0, Measure::Dirs),
                forall|j: int| k <= j < n
                    ==> recursive((#[trigger] self@[j]).stats, Measure::Size)
                        <= total_direct(s0, Measure::Size),
                forall|j: int| k <= j < n
                    ==> recursive((#[trigger] self@[j]).stats, Measure::Files)
                        <= total_direct(s0, Measure::Files),
                forall|j: int| k <= j < n
                    ==> recursive((#[trigger] self@[j]).stats, Measure::Dirs)
                        <= total_direct(s0, Measure::Dirs),
            decreases k,
        {
            let idx = k - 1;
            let ghost a = self@;
            let st = self.stats[idx];
            proof {
                lemma_sum_recursive_covers(a, k as int, idx as int, Measure::Size);
                lemma_sum_recursive_covers(a, k as int, idx as int, Measure::Files);
                lemma_sum_recursive_covers(a, k as int, idx as int, Measure::Dirs);
            }
            let mut moved = false;
            let up = parent(&self.paths[idx]);
            assert(a[idx as int].path == self.paths@[idx as int]@);
            match up {
                Some(q) => {
                    let (found, pi) = self.find(&q);
                    if found {
                        proof {
                            assert(is_child(a[idx as int].path, a[pi as int].path));
                            lemma_parent_before_child(a, pi as int, idx as int);
                            lemma_sum_recursive_covers(a, idx as int, pi as int, Measure::Size);
                            lemma_sum_recursive_covers(a, idx as int, pi as int, Measure::Files);
                            lemma_sum_recursive_covers(a, idx as int, pi as int, Measure::Dirs);
                        }
                        let mut ps = self.stats[pi];
                        ps.size_recursively = ps.size_recursively + st.size_recursively;
                        ps.file_count_recursively = ps.file_count_recursively + st.file_count_recursively;
                        ps.dir_count_recursively = ps.dir_count_recursively + st.dir_count_recursively;
                        self.stats.set(pi, ps);
                        proof {
                            let b = self@;
                            assert forall|j: int| 0 <= j < b.len() implies (#[trigger] b[j]).path
                                == a[j].path && (j != pi ==> b[j].stats == a[j].stats) by {}
                            assert forall|x: int, y: int| 0 <= x < y < b.len()
                                implies bytes_lt((#[trigger] b[x]).path, (#[trigger] b[y]).path) by {
                                assert(b[x].path == a[x].path);
                                assert(b[y].path == a[y].path);
                            }
                            assert forall|j: int| 0 <= j < b.len() implies (#[trigger] b[j]).path
                                == s0[j].path && same_direct(b[j].stats, s0[j].stats) by {
                                assert(a[j].path == s0[j].path && same_direct(a[j].stats, s0[j].stats));
                            }
                            lemma_roll_step_found(a, b, idx as int, pi as int, Measure::Size);
                            lemma_roll_step_found(a, b, idx as int, pi as int, Measure::Files);
                            lemma_roll_step_found(a, b, idx as int, pi as int, Measure::Dirs);
                            assert forall|j: int| idx <= j < n
                                implies recursive((#[trigger] b[j]).stats, Measure::Size)
                                    <= total_direct(s0, Measure::Size)
                                && recursive(b[j].stats, Measure::Files) <= total_direct(s0, Measure::Files)
                                && recursive(b[j].stats, Measure::Dirs)
                                    <= total_direct(s0, Measure::Dirs) by {
                                assert(b[j].stats == a[j].stats);
                            }
                        }
                        moved = true;
                    } else {
                        proof {
                            assert forall|j: int| 0 <= j < a.len()
                                implies !is_child(a[idx as int].path, (#[trigger] a[j]).path) by {}
                        }
                    }
                },
                None => {},
            }
            proof {
                if !moved {
                    lemma_roll_step_none(a, idx as int, Measure::Size);
                    lemma_roll_step_none(a, idx as int, Measure::Files);
                    lemma_roll_step_none(a, idx as int, Measure::Dirs);
                }
            }
            k = idx;
        }
        proof {
            lemma_same_directs_total(self@, s0);
            let s = self@;
            assert forall|i: int| 0 <= i < s.len() implies {
                let st = (#[trigger] s[i]).stats;
                &&& st.size_recursively >= st.size_directly
                &&& st.file_count_recursively >= st.file_count_directly
                &&& st.dir_count_recursively >= st.dir_count_directly
            } by {
                law_recursive_not_below_direct(s, i);
            }
        }
    }
}

/// The statistics `st` with its direct counts raised.
pub open spec fn raised(st: DirStats, size: u64, files: u64, dirs: u64) -> DirStats {
    DirStats {
        size_directly: (st.size_directly + size) as u64,
        file_count_directly: (st.file_count_directly + files) as u64,
        dir_count_directly: (st.dir_count_directly + dirs) as u64,
        ..st
    }
}

/// The records `s` with the direct counts of the record for `p` raised.
pub open spec fn raise_at(s: Seq<DirRecord>, p: Seq<u8>, size: u64, files: u64, dirs: u64) -> Seq<DirRecord> {
    if has_path(s, p) {
        let i = index_of(s, p);
        s.update(i, DirRecord { path: p, stats: raised(s[i].stats, size, files, dirs) })
    } else {
        s
    }
}

/// Raising the direct counts of one record leaves the paths, and raises
/// the sums of direct counts by as much.
pub proof fn lemma_raise_keeps(s: Seq<DirRecord>, i: int, size: u64, files: u64, dirs: u64, root: Seq<u8>)
    requires
        0 <= i < s.len(),
        s[i].stats.size_directly + size <= u64::MAX,
        s[i].stats.file_count_directly + files <= u64::MAX,
        s[i].stats.dir_count_directly + dirs <= u64::MAX,
    ensures
        ({
            let t = s.update(i, DirRecord { path: s[i].path, stats: raised(s[i].stats, size, files, dirs) });
            &&& paths_of(t) == paths_of(s)
            &&& total_direct(t, Measure::Size) == total_direct(s, Measure::Size) + size
            &&& total_direct(t, Measure::Files) == total_direct(s, Measure::Files) + files
            &&& total_direct(t, Measure::Dirs) == total_direct(s, Measure::Dirs) + dirs
            &&& all_within(s, root) ==> all_within(t, root)
            &&& closed_under_parent(s, root) ==> closed_under_parent(t, root)
        }),
{
    let t = s.update(i, DirRecord { path: s[i].path, stats: raised(s[i].stats, size, files, dirs) });
    assert(paths_of(t) =~= paths_of(s));
    lemma_sum_direct_raise(s, t, s.len() as int, i, size as nat, Measure::Size);
    lemma_sum_direct_raise(s, t, s.len() as int, i, files as nat, Measure::Files);
    lemma_sum_direct_raise(s, t, s.len() as int, i, dirs as nat, Measure::Dirs);
    lemma_same_paths_keep(s, t, root);
}

/// What is said of the paths of a tree holds of every tree with the same
/// paths.
pub proof fn lemma_same_paths_keep(s: Seq<DirRecord>, t: Seq<DirRecord>, root: Seq<u8>)
    requires
        s.len() == t.len(),
        forall|k: int| 0 <= k < s.len() ==> (#[trigger] t[k]).path == s[k].path,
    ensures
        all_within(s, root) ==> all_within(t, root),
        closed_under_parent(s, root) ==> closed_under_parent(t, root),
        sorted_by_path(s) ==> sorted_by_path(t),
{
    if all_within(s, root) {
        assert forall|k: int| 0 <= k < t.len() implies is_within(root, (#[trigger] t[k]).path) by {
            assert(is_within(root, s[k].path));
        }
    }
    if closed_under_parent(s, root) {
        assert forall|k: int| 0 <= k < t.len() implies (#[trigger] t[k]).path == root
            || (has_parent(t[k].path)
            && has_path(t, parent_of(t[k].path))) by {
            assert(s[k].path == root || (has_parent(s[k].path) && has_path(s, parent_of(s[k].path))));
            if s[k].path != root {
                let j = index_of(s, parent_of(s[k].path));
                assert(t[j].path == parent_of(t[k].path));
            }
        }
    }
    if sorted_by_path(s) {
        assert forall|a: int, b: int| 0 <= a < b < t.len()
            implies bytes_lt((#[trigger] t[a]).path, (#[trigger] t[b]).path) by {
            assert(bytes_lt(s[a].path, s[b].path));
        }
    }
}

/// Trees with the same direct counts have the same sums of them.
pub proof fn lemma_same_directs_total(a: Seq<DirRecord>, b: Seq<DirRecord>)
    requires
        same_directs(a, b),
    ensures
        total_direct(a, Measure::Size) == total_direct(b, Measure::Size),
        total_direct(a, Measure::Files) == total_direct(b, Measure::Files),
        total_direct(a, Measure::Dirs) == total_direct(b, Measure::Dirs),
{
    assert forall|k: int| 0 <= k < a.len() implies direct((#[trigger] a[k]).stats, Measure::Size)
        == direct(b[k].stats, Measure::Size)
        && direct(a[k].stats, Measure::Files) == direct(b[k].stats, Measure::Files)
        && direct(a[k].stats, Measure::Dirs) == direct(b[k].stats, Measure::Dirs) by {
        assert(same_direct(a[k].stats, b[k].stats));
    }
    lemma_sum_direct_frame(a, b, a.len() as int, Measure::Size);
    lemma_sum_direct_frame(a, b, a.len() as int, Measure::Files);
    lemma_sum_direct_frame(a, b, a.len() as int, Measure::Dirs);
}

/// After the roll-up, the recursive sizes of the children of `root`,
/// summed, are at most the sum of all direct sizes.
pub proof fn lemma_root_children_bounded(s: Seq<DirRecord>, root: Seq<u8>, bound: int)
    requires
        rolled_up(s),
        closed_under_parent(s, root),
        total_direct(s, Measure::Size) <= bound,
    ensures
        child_sum(s, root, Measure::Size) <= bound,
{
    if has_path(s, root) {
        let i = index_of(s, root);
        assert(recursive(s[i].stats, Measure::Size) == direct(s[i].stats, Measure::Size) + child_sum_from(
            s,
            s[i].path,
            0,
            Measure::Size,
        ));
        assert(recursive(s[i].stats, Measure::Size) <= total_direct(s, Measure::Size));
    } else {
        assert forall|k: int| 0 <= k < s.len() && 0 <= k implies !is_child((#[trigger] s[k]).path, root) by {
            if is_child(s[k].path, root) {
                lemma_parent_len_bounds(s[k].path);
                assert(s[k].path == root || (has_parent(s[k].path) && has_path(s, parent_of(s[k].path))));
            }
        }
        lemma_child_sum_none(s, root, 0, Measure::Size);
    }
}

/// After the roll-up no recursive count is below the direct one.
pub proof fn law_recursive_not_below_direct(s: Seq<DirRecord>, i: int)
    requires
        rolled_up(s),
        0 <= i < s.len(),
    ensures
        s[i].stats.size_recursively >= s[i].stats.size_directly,
        s[i].stats.file_count_recursively >= s[i].stats.file_count_directly,
        s[i].stats.dir_count_recursively >= s[i].stats.dir_count_directly,
{
    assert(recursive(s[i].stats, Measure::Size)
        == direct(s[i].stats, Measure::Size) + child_sum_from(s, s[i].path, 0, Measure::Size));
    assert(recursive(s[i].stats, Measure::Files)
        == direct(s[i].stats, Measure::Files) + child_sum_from(s, s[i].path, 0, Measure::Files));
    assert(recursive(s[i].stats, Measure::Dirs)
        == direct(s[i].stats, Measure::Dirs) + child_sum_from(s, s[i].path, 0, Measure::Dirs));
}

/// After the roll-up the recursive size of a directory is its direct size
/// and the recursive sizes of its children; so for the counts of files and
/// of directories.
pub proof fn law_partition(s: Seq<DirRecord>, i: int)
    requires
        rolled_up(s),
        0 <= i < s.len(),
    ensures
        s[i].stats.size_recursively == s[i].stats.size_directly + child_sum(s, s[i].path, Measure::Size),
        s[i].stats.file_count_recursively
            == s[i].stats.file_count_directly + child_sum(s, s[i].path, Measure::Files),
        s[i].stats.dir_count_recursively
            == s[i].stats.dir_count_directly + child_sum(s, s[i].path, Measure::Dirs),
{
    assert(recursive(s[i].stats, Measure::Size)
        == direct(s[i].stats, Measure::Size) + child_sum_from(s, s[i].path, 0, Measure::Size));
    assert(recursive(s[i].stats, Measure::Files)
        == direct(s[i].stats, Measure::Files) + child_sum_from(s, s[i].path, 0, Measure::Files));
    assert(recursive(s[i].stats, Measure::Dirs)
        == direct(s[i].stats, Measure::Dirs) + child_sum_from(s, s[i].path, 0, Measure::Dirs));
}

/// In sorted records, the record at an index is the one that is found
/// for its path.
pub proof fn lemma_index_of(s: Seq<DirRecord>, i: int)
    requires
        sorted_by_path(s),
        0 <= i < s.len(),
    ensures
        has_path(s, s[i].path),
        index_of(s, s[i].path) == i,
        stats_of(s, s[i].path) == Some(s[i].stats),
{
    lemma_sorted_distinct(s, i, index_of(s, s[i].path));
}

/// What a record made for a path changes: the path has a record, with
/// every count at 0 if it had none, and all other records are as before.
pub proof fn lemma_with_path_lookup(s: Seq<DirRecord>, p: Seq<u8>, q: Seq<u8>)
    requires
        sorted_by_path(s),
    ensures
        sorted_by_path(with_path(s, p)),
        has_path(with_path(s, p), q) == (has_path(s, q) || q == p),
        stats_of(with_path(s, p), q) == if has_path(s, q) {
            stats_of(s, q)
        } else if q == p {
            Some(zero_stats())
        } else {
            None
        },
{
    let t = with_path(s, p);
    if !has_path(s, p) {
        let ks = paths_of(s);
        lemma_sorted_paths(s);
        if ks.contains(p) {
            let j = choose|j: int| 0 <= j < ks.len() && ks[j] == p;
            assert(s[j].path == p);
        }
        crate::lex::lemma_rank_splits(ks, p);
        let at = rank_in(ks, p);
        let r = DirRecord { path: p, stats: zero_stats() };
        lemma_insert_key_sorted(ks, p, at);
        assert(paths_of(t) =~= ks.insert(at, p));
        lemma_sorted_paths(t);
        assert(t[at] == r);
        lemma_index_of(t, at);
        if has_path(s, q) {
            let j = index_of(s, q);
            if j < at {
                assert(t[j] == s[j]);
                lemma_index_of(t, j);
            } else {
                assert(t[j + 1] == s[j]);
                lemma_index_of(t, j + 1);
            }
        } else if q != p {
            if has_path(t, q) {
                let k = index_of(t, q);
                lemma_with_path_back(s, p, k);
                let j = choose|j: int| 0 <= j < s.len() && s[j] == t[k];
                assert(s[j].path == q);
            }
        }
    }
}

/// Whether `p` is `d` or one of the directories above it up to `root`.
pub open spec fn chain_member(root: Seq<u8>, d: Seq<u8>, p: Seq<u8>) -> bool
    decreases d.len(),
{
    p == d || (d != root && has_parent(d) && chain_member(root, parent_of(d), p))
}

/// What the records made for a directory and those above it change:
/// these directories have a record, with every count at 0 if they had
/// none, and all other records are as before.
pub proof fn lemma_with_chain_lookup(s: Seq<DirRecord>, root: Seq<u8>, d: Seq<u8>, q: Seq<u8>)
    requires
        sorted_by_path(s),
    ensures
        sorted_by_path(with_chain(s, root, d)),
        has_path(with_chain(s, root, d), q) == (has_path(s, q) || chain_member(root, d, q)),
        stats_of(with_chain(s, root, d), q) == if has_path(s, q) {
            stats_of(s, q)
        } else if chain_member(root, d, q) {
            Some(zero_stats())
        } else {
            None
        },
    decreases d.len(),
{
    let t = with_path(s, d);
    lemma_with_path_lookup(s, d, q);
    if d != root && has_parent(d) {
        lemma_parent_len_bounds(d);
        lemma_with_chain_lookup(t, root, parent_of(d), q);
    }
}

/// What raising the direct counts of a directory changes: the record of
/// that directory, and no other.
pub proof fn lemma_raise_at_lookup(s: Seq<DirRecord>, p: Seq<u8>, size: u64, files: u64, dirs: u64,
    q: Seq<u8>)
    requires
        sorted_by_path(s),
    ensures
        sorted_by_path(raise_at(s, p, size, files, dirs)),
        has_path(raise_at(s, p, size, files, dirs), q) == has_path(s, q),
        stats_of(raise_at(s, p, size, files, dirs), q) == if q == p && has_path(s, p) {
            Some(raised(stats_of(s, p)->0, size, files, dirs))
        } else {
            stats_of(s, q)
        },
{
    let t = raise_at(s, p, size, files, dirs);
    if has_path(s, p) {
        let i = index_of(s, p);
        assert forall|k: int| 0 <= k < s.len() implies (#[trigger] t[k]).path == s[k].path by {}
        lemma_same_paths_keep(s, t, p);
        if has_path(s, q) {
            let j = index_of(s, q);
            assert(t[j].path == q);
            lemma_index_of(t, j);
            lemma_index_of(s, j);
            if q == p {
                lemma_sorted_distinct(s, i, j);
            }
        } else if has_path(t, q) {
            let k = index_of(t, q);
            assert(s[k].path == q);
        }
    }
}

/// Sorted records without their first: still sorted, and what is found
/// for every path but the first is the same.
pub proof fn lemma_skip_lookup(a: Seq<DirRecord>, q: Seq<u8>)
    requires
        sorted_by_path(a),
        a.len() > 0,
    ensures
        sorted_by_path(a.skip(1)),
        stats_of(a.skip(1), q) == if q == a[0].path {
            None
        } else {
            stats_of(a, q)
        },
{
    let t = a.skip(1);
    assert forall|i: int, j: int| 0 <= i < j < t.len()
        implies bytes_lt((#[trigger] t[i]).path, (#[trigger] t[j]).path) by {
        assert(bytes_lt(a[i + 1].path, a[j + 1].path));
    }
    if has_path(t, q) {
        let k = index_of(t, q);
        assert(a[k + 1].path == q);
        lemma_index_of(a, k + 1);
        lemma_index_of(t, k);
        if q == a[0].path {
            lemma_sorted_distinct(a, 0, k + 1);
        }
    } else if has_path(a, q) {
        let k = index_of(a, q);
        if k > 0 {
            assert(t[k - 1].path == q);
        }
    }
}

/// Two sorted lists of records in which the same is found for every path
/// are the same list.
pub proof fn lemma_same_lookup_same_records(a: Seq<DirRecord>, b: Seq<DirRecord>)
    requires
        sorted_by_path(a),
        sorted_by_path(b),
        forall|q: Seq<u8>| #[trigger] stats_of(a, q) == stats_of(b, q),
    ensures
        a == b,
    decreases a.len(),
{
    if a.len() == 0 {
        if b.len() > 0 {
            lemma_index_of(b, 0);
            assert(stats_of(a, b[0].path) == stats_of(b, b[0].path));
        }
        assert(a =~= b);
    } else {
        lemma_index_of(a, 0);
        assert(stats_of(a, a[0].path) == stats_of(b, a[0].path));
        let j = index_of(b, a[0].path);
        lemma_index_of(b, j);
        lemma_index_of(b, 0);
        assert(stats_of(a, b[0].path) == stats_of(b, b[0].path));
        let i = index_of(a, b[0].path);
        lemma_index_of(a, i);
        if j > 0 {
            assert(bytes_lt(b[0].path, b[j].path));
            lemma_lt_irreflexive(a[0].path);
            if i > 0 {
                assert(bytes_lt(a[0].path, a[i].path));
                lemma_lt_asymmetric(a[0].path, a[i].path);
            }
        }
        assert(a[0] == b[0]);
        assert forall|q: Seq<u8>| #[trigger] stats_of(a.skip(1), q) == stats_of(b.skip(1), q) by {
            lemma_skip_lookup(a, q);
            lemma_skip_lookup(b, q);
            assert(stats_of(a, q) == stats_of(b, q));
        }
        lemma_skip_lookup(a, a[0].path);
        lemma_skip_lookup(b, a[0].path);
        lemma_same_lookup_same_records(a.skip(1), b.skip(1));
        assert(a =~= seq![a[0]] + a.skip(1));
        assert(b =~= seq![b[0]] + b.skip(1));
    }
}

/// Where no record between `lo` and `hi` is a child of `d`, the sum over
/// the children from `lo` on is that from `hi` on.
pub proof fn lemma_child_sum_skip(s: Seq<DirRecord>, d: Seq<u8>, lo: int, hi: int, m: Measure)
    requires
        0 <= lo <= hi <= s.len(),
        forall|k: int| lo <= k < hi ==> !is_child((#[trigger] s[k]).path, d),
    ensures
        child_sum_from(s, d, lo, m) == child_sum_from(s, d, hi, m),
    decreases hi - lo,
{
    if lo < hi {
        assert(!is_child(s[lo].path, d));
        lemma_child_sum_skip(s, d, lo + 1, hi, m);
    }
}

/// In two rolled-up trees with the same direct counts, the recursive
/// counts from index `k` on are the same.
pub proof fn lemma_rolled_up_suffix(a: Seq<DirRecord>, b: Seq<DirRecord>, m: Measure, k: int)
    requires
        sorted_by_path(a),
        same_directs(a, b),
        partition_from(a, 0, m),
        partition_from(b, 0, m),
        0 <= k <= a.len(),
    ensures
        forall|i: int| k <= i < a.len() ==> recursive((#[trigger] a[i]).stats, m) == recursive(b[i].stats, m),
    decreases a.len() - k,
{
    if k < a.len() {
        lemma_rolled_up_suffix(a, b, m, k + 1);
        let d = a[k].path;
        assert(b[k].path == d);
        assert forall|j: int| 0 <= j < k + 1 implies !is_child((#[trigger] a[j]).path, d) by {
            if is_child(a[j].path, d) {
                lemma_parent_before_child(a, k, j);
            }
        }
        assert forall|j: int| 0 <= j < k + 1 implies !is_child((#[trigger] b[j]).path, d) by {
            assert(b[j].path == a[j].path);
        }
        lemma_child_sum_skip(a, d, 0, k + 1, m);
        lemma_child_sum_skip(b, d, 0, k + 1, m);
        assert forall|j: int| k + 1 <= j < a.len() && 0 <= j implies (#[trigger] a[j]).path == b[j].path
            && recursive(
            a[j].stats,
            m,
        ) == recursive(b[j].stats, m) by {}
        lemma_child_sum_frame(a, b, d, k + 1, m);
        assert(recursive(a[k].stats, m) == direct(a[k].stats, m) + child_sum_from(a, a[k].path, 0, m));
        assert(recursive(b[k].stats, m) == direct(b[k].stats, m) + child_sum_from(b, b[k].path, 0, m));
        assert(same_direct(a[k].stats, b[k].stats));
    }
}

/// The roll-up has one outcome: two rolled-up trees with the same paths
/// and direct counts are the same.
pub proof fn law_roll_up_is_unique(a: Seq<DirRecord>, b: Seq<DirRecord>)
    requires
        sorted_by_path(a),
        same_directs(a, b),
        rolled_up(a),
        rolled_up(b),
    ensures
        a == b,
{
    lemma_rolled_up_suffix(a, b, Measure::Size, 0);
    lemma_rolled_up_suffix(a, b, Measure::Files, 0);
    lemma_rolled_up_suffix(a, b, Measure::Dirs, 0);
    assert forall|i: int| 0 <= i < a.len() implies a[i] == b[i] by {
        assert(a[i].path == b[i].path && same_direct(a[i].stats, b[i].stats));
        assert(recursive(a[i].stats, Measure::Size) == recursive(b[i].stats, Measure::Size));
        assert(recursive(a[i].stats, Measure::Files) == recursive(b[i].stats, Measure::Files));
        assert(recursive(a[i].stats, Measure::Dirs) == recursive(b[i].stats, Measure::Dirs));
    }
    assert(a =~= b);
}

/// The records made for a directory and those above it count nothing: the
/// sums of direct counts stay as they are.
pub proof fn lemma_with_chain_total(s: Seq<DirRecord>, root: Seq<u8>, d: Seq<u8>)
    ensures
        total_direct(with_chain(s, root, d), Measure::Size) == total_direct(s, Measure::Size),
        total_direct(with_chain(s, root, d), Measure::Files) == total_direct(s, Measure::Files),
        total_direct(with_chain(s, root, d), Measure::Dirs) == total_direct(s, Measure::Dirs),
    decreases d.len(),
{
    lemma_with_path_keeps(s, d, root);
    if d != root && has_parent(d) {
        lemma_parent_len_bounds(d);
        lemma_with_chain_total(with_path(s, d), root, parent_of(d));
    }
}

} // verus!
