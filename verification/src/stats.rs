//! The aggregation: what all batches together say of the tree.
//!
//! A batch holds the entries of one directory, the parent of its first
//! entry. Each entry is offered to the ranking of largest files, counted
//! for its owner and added to the total. Files and directories that pass
//! the age filter are counted in the direct counts of the batch's
//! directory, and files among them for their extension. When all batches
//! are in, the recursive counts are rolled up and the rankings of
//! directories and extensions are made.

use std::collections::BTreeMap;
use vstd::prelude::*;
use crate::dirtree::{all_within, child_sum, closed_under_parent, has_path, index_of,
    lemma_raise_keeps, lemma_root_children_bounded, lemma_same_directs_total,
    lemma_same_paths_keep, lemma_sorted_distinct, lemma_sum_direct_covers, raise_at, rolled_up,
    same_directs, total_direct, with_chain, DirRecord, DirStats, DirTree, Measure};
use crate::entry::{entries_of, lemma_entries_take, AgeFilter, Entry, EntryKind, EntryView};
use crate::exttable::{credited, has_name, lemma_credited_within, name_index, totals_within, ExtRecord,
    ExtTable};
use crate::path::{child_is_higher_than_base_dir, clean_dir, has_parent, is_within, parent, parent_of,
    trimmed};
use crate::topn::{head, law_ranking_is_head, offer, offer_all, sorted_offers, track_top_n, Ranked, TopN};
use crate::util::{extension_of, multi_extension};

verus! {

/// Why a batch could not be taken in.
#[derive(Debug, Clone, Copy, PartialEq, Eq, Structural)]
pub enum StatsError {
    /// The total of bytes or the number of entries would not fit in 64
    /// bits.
    Overflow,
}

/// The sizes of all entries of a batch, summed.
pub open spec fn batch_bytes(list: Seq<EntryView>) -> nat
    decreases list.len(),
{
    if list.len() == 0 {
        0
    } else {
        batch_bytes(list.drop_last()) + list.last().meta.size as nat
    }
}

/// Whether `e` is counted as a file of its directory.
pub open spec fn counts_as_file(e: EntryView, age: AgeFilter) -> bool {
    e.meta.kind == EntryKind::File && age.allows(e.meta.mtime)
}

/// Whether `e` is counted as a directory of its directory.
pub open spec fn counts_as_dir(e: EntryView, age: AgeFilter) -> bool {
    e.meta.kind == EntryKind::Dir && age.allows(e.meta.mtime)
}

/// The sizes of the entries of a batch that are counted for its directory.
pub open spec fn direct_bytes(list: Seq<EntryView>, age: AgeFilter) -> nat
    decreases list.len(),
{
    if list.len() == 0 {
        0
    } else if counts_as_file(list.last(), age) || counts_as_dir(list.last(), age) {
        direct_bytes(list.drop_last(), age) + list.last().meta.size as nat
    } else {
        direct_bytes(list.drop_last(), age)
    }
}

/// Number of entries of a batch that are counted as files.
pub open spec fn direct_files(list: Seq<EntryView>, age: AgeFilter) -> nat
    decreases list.len(),
{
    if list.len() == 0 {
        0
    } else if counts_as_file(list.last(), age) {
        direct_files(list.drop_last(), age) + 1
    } else {
        direct_files(list.drop_last(), age)
    }
}

/// Number of entries of a batch that are counted as directories.
pub open spec fn direct_dirs(list: Seq<EntryView>, age: AgeFilter) -> nat
    decreases list.len(),
{
    if list.len() == 0 {
        0
    } else if counts_as_dir(list.last(), age) {
        direct_dirs(list.drop_last(), age) + 1
    } else {
        direct_dirs(list.drop_last(), age)
    }
}

/// The usage per owner after one more entry of `size` bytes of owner `uid`.
pub open spec fn credit_user(m: Map<u32, (u64, u64)>, uid: u32, size: u64) -> Map<u32, (u64, u64)> {
    let cur = if m.contains_key(uid) {
        m[uid]
    } else {
        (0u64, 0u64)
    };
    m.insert(uid, ((cur.0 + 1) as u64, (cur.1 + size) as u64))
}

/// The usage per owner after every entry of a batch was counted.
pub open spec fn users_after(m: Map<u32, (u64, u64)>, list: Seq<EntryView>) -> Map<u32, (u64, u64)>
    decreases list.len(),
{
    if list.len() == 0 {
        m
    } else {
        credit_user(users_after(m, list.drop_last()), list.last().meta.uid, list.last().meta.size)
    }
}

/// The extension of an entry: that of the last component of its path.
pub open spec fn ext_of(e: EntryView) -> Option<Seq<u8>> {
    extension_of(e.path)
}

/// The bytes per extension after one more entry.
pub open spec fn ext_step(s: Seq<ExtRecord>, e: EntryView, age: AgeFilter) -> Seq<ExtRecord> {
    if counts_as_file(e, age) {
        match ext_of(e) {
            Some(x) => credited(s, x, e.meta.size),
            None => s,
        }
    } else {
        s
    }
}

/// The bytes per extension after every entry of a batch was counted.
pub open spec fn exts_after(s: Seq<ExtRecord>, list: Seq<EntryView>, age: AgeFilter) -> Seq<ExtRecord>
    decreases list.len(),
{
    if list.len() == 0 {
        s
    } else {
        ext_step(exts_after(s, list.drop_last(), age), list.last(), age)
    }
}

/// The ranking of largest files after every entry of a batch was offered.
pub open spec fn files_after(top: Seq<Ranked>, cap: nat, list: Seq<EntryView>) -> Seq<Ranked>
    decreases list.len(),
{
    if list.len() == 0 {
        top
    } else {
        offer(
            files_after(top, cap, list.drop_last()),
            cap,
            Ranked { score: list.last().meta.size, name: list.last().path },
        )
    }
}

/// The directory of a batch: the parent of its first entry.
pub open spec fn batch_dir(list: Seq<EntryView>) -> Option<Seq<u8>> {
    if list.len() > 0 && has_parent(list[0].path) {
        Some(parent_of(list[0].path))
    } else {
        None
    }
}

/// Whether the batch is taken in: it is not empty and its directory is
/// `root` or lies below it.
pub open spec fn accepts(root: Seq<u8>, list: Seq<EntryView>) -> bool {
    batch_dir(list) matches Some(d) && is_within(root, d)
}

/// No owner has more entries than `entries` or more bytes than `bytes`.
pub open spec fn users_within(m: Map<u32, (u64, u64)>, entries: int, bytes: int) -> bool {
    forall|u: u32| m.contains_key(u) ==> (#[trigger] m[u]).0 <= entries && m[u].1 <= bytes
}

/// The part of a batch is no larger than the whole.
pub proof fn lemma_batch_bytes_mono(list: Seq<EntryView>, k: int)
    requires
        0 <= k <= list.len(),
    ensures
        batch_bytes(list.take(k)) <= batch_bytes(list),
    decreases list.len(),
{
    if k == list.len() {
        assert(list.take(k) =~= list);
    } else {
        assert(list.drop_last().take(k) =~= list.take(k));
        lemma_batch_bytes_mono(list.drop_last(), k);
    }
}

/// The sizes of all entries of a batch, summed, if the sum is at most
/// `room`.
pub fn batch_total(list: &Vec<Entry>, room: u64) -> (r: Option<u64>)
    ensures
        match r {
            Some(sum) => sum == batch_bytes(entries_of(list@)) && sum <= room,
            None => batch_bytes(entries_of(list@)) > room,
        },
{
    let ghost batch = entries_of(list@);
    let n = list.len();
    let mut sum: u64 = 0;
    let mut k: usize = 0;
    while k < n
        invariant
            n == list@.len(),
            batch == entries_of(list@),
            k <= n,
            sum == batch_bytes(batch.take(k as int)),
            sum <= room,
        decreases n - k,
    {
        let size = list[k].meta.size;
        proof {
            lemma_entries_take(list@, k as int);
        }
        if size > room - sum {
            proof {
                lemma_batch_bytes_mono(batch, k + 1);
            }
            return None;
        }
        sum = sum + size;
        k = k + 1;
    }
    proof {
        lemma_entries_take(list@, n as int);
    }
    Some(sum)
}

/// What a directory is ranked by.
#[derive(Debug, Clone, Copy, PartialEq, Eq, Structural)]
pub enum DirScore {
    SizeDirect,
    FilesDirect,
    DirsDirect,
    FilesRecursive,
    SizeRecursive,
}

/// The score of a directory with the statistics `st`.
pub open spec fn dir_score(st: DirStats, by: DirScore) -> u64 {
    match by {
        DirScore::SizeDirect => st.size_directly,
        DirScore::FilesDirect => st.file_count_directly,
        DirScore::DirsDirect => st.dir_count_directly,
        DirScore::FilesRecursive => st.file_count_recursively,
        DirScore::SizeRecursive => st.size_recursively,
    }
}

/// The directories of a tree with their scores, in the order of the tree.
pub open spec fn dir_items(s: Seq<DirRecord>, by: DirScore) -> Seq<Ranked> {
    Seq::new(s.len(), |i: int| Ranked { score: dir_score(s[i].stats, by), name: s[i].path })
}

/// The extensions of a table with their bytes, in the order of the table.
pub open spec fn ext_items(s: Seq<ExtRecord>) -> Seq<Ranked> {
    Seq::new(s.len(), |i: int| Ranked { score: s[i].total, name: s[i].name })
}

/// The ranking of the directories of `tree` by the score `by`.
pub fn rank_dirs(tree: &DirTree, limit: usize, by: DirScore) -> (r: TopN)
    requires
        tree.wf(),
    ensures
        r.wf(),
        r.capacity() == limit,
        r@ == offer_all(limit as nat, dir_items(tree@, by)),
        r@ == head(sorted_offers(dir_items(tree@, by)), limit as nat),
{
    let mut r = TopN::new(limit);
    let ghost items = dir_items(tree@, by);
    let n = tree.len();
    let mut i: usize = 0;
    while i < n
        invariant
            tree.wf(),
            n == tree@.len(),
            i <= n,
            items == dir_items(tree@, by),
            r.wf(),
            r.capacity() == limit,
            r@ == offer_all(limit as nat, items.take(i as int)),
        decreases n - i,
    {
        let st = tree.stats_at(i);
        let score = match by {
            DirScore::SizeDirect => st.size_directly,
            DirScore::FilesDirect => st.file_count_directly,
            DirScore::DirsDirect => st.dir_count_directly,
            DirScore::FilesRecursive => st.file_count_recursively,
            DirScore::SizeRecursive => st.size_recursively,
        };
        proof {
            assert(items.take(i + 1).drop_last() =~= items.take(i as int));
            assert(items.take(i + 1).last() == Ranked { score, name: tree@[i as int].path });
        }
        track_top_n(&mut r, tree.path_at(i), score);
        i = i + 1;
    }
    proof {
        assert(items.take(n as int) =~= items);
        law_ranking_is_head(limit as nat, items);
    }
    r
}

/// The ranking of the extensions of `table` by their bytes.
pub fn rank_exts(table: &ExtTable, limit: usize) -> (r: TopN)
    requires
        table.wf(),
    ensures
        r.wf(),
        r.capacity() == limit,
        r@ == offer_all(limit as nat, ext_items(table@)),
        r@ == head(sorted_offers(ext_items(table@)), limit as nat),
{
    let mut r = TopN::new(limit);
    let ghost items = ext_items(table@);
    let n = table.len();
    let mut i: usize = 0;
    while i < n
        invariant
            table.wf(),
            n == table@.len(),
            i <= n,
            items == ext_items(table@),
            r.wf(),
            r.capacity() == limit,
            r@ == offer_all(limit as nat, items.take(i as int)),
        decreases n - i,
    {
        let score = table.total_at(i);
        proof {
            assert(items.take(i + 1).drop_last() =~= items.take(i as int));
            assert(items.take(i + 1).last() == Ranked { score, name: table@[i as int].name });
        }
        track_top_n(&mut r, table.name_at(i), score);
        i = i + 1;
    }
    proof {
        assert(items.take(n as int) =~= items);
        law_ranking_is_head(limit as nat, items);
    }
    r
}

/// Everything that is aggregated over a scan.
#[derive(Debug)]
pub struct AllStats {
    /// The directory that the scan starts from.
    pub root: Vec<u8>,
    /// The capacity of every ranking.
    pub limit: usize,
    /// The age filter.
    pub age: AgeFilter,
    pub dtree: DirTree,
    pub extensions: ExtTable,
    /// Per owner: number of entries, and their bytes.
    pub user_map: BTreeMap<u32, (u64, u64)>,
    pub top_dir: TopN,
    pub top_cnt_dir: TopN,
    pub top_cnt_file: TopN,
    pub top_cnt_overall: TopN,
    pub top_dir_overall: TopN,
    pub top_files: TopN,
    pub top_ext: TopN,
    pub total_usage: u64,
    /// Number of entries taken in.
    pub total_entries: u64,
}

/// Two states with the same root, capacity and age filter.
pub open spec fn same_settings(a: &AllStats, b: &AllStats) -> bool {
    &&& a.root == b.root
    &&& a.limit == b.limit
    &&& a.age == b.age
}

/// Two states with the same rankings of directories and extensions.
pub open spec fn same_rankings(a: &AllStats, b: &AllStats) -> bool {
    &&& a.top_dir == b.top_dir
    &&& a.top_cnt_dir == b.top_cnt_dir
    &&& a.top_cnt_file == b.top_cnt_file
    &&& a.top_cnt_overall == b.top_cnt_overall
    &&& a.top_dir_overall == b.top_dir_overall
    &&& a.top_ext == b.top_ext
}

/// What the batches have told so far, as contracts see it.
pub struct Counts {
    pub dirs: Seq<DirRecord>,
    pub exts: Seq<ExtRecord>,
    pub users: Map<u32, (u64, u64)>,
    pub top_files: Seq<Ranked>,
    pub total_usage: u64,
    pub total_entries: u64,
}

/// Whether the batch `list` is refused: with it, the total of bytes or
/// the number of entries would not fit in 64 bits.
pub open spec fn refuses(c: Counts, list: Seq<EntryView>) -> bool {
    c.total_usage + batch_bytes(list) > u64::MAX || c.total_entries + list.len() > u64::MAX
}

/// What the batches have told after the batch `list` was handed in.
///
/// A batch that is not taken in or is refused changes nothing. Else its
/// directory and the directories above it up to the root have a record,
/// the direct counts of its directory are raised, and every entry is
/// counted for its owner, for its extension and in the totals, and
/// offered to the ranking of largest files.
pub open spec fn absorbed(c: Counts, root: Seq<u8>, limit: nat, age: AgeFilter,
    list: Seq<EntryView>) -> Counts {
    if !accepts(root, list) || refuses(c, list) {
        c
    } else {
        let dir = batch_dir(list)->0;
        Counts {
            dirs: raise_at(
                with_chain(c.dirs, root, dir),
                dir,
                direct_bytes(list, age) as u64,
                direct_files(list, age) as u64,
                direct_dirs(list, age) as u64,
            ),
            exts: exts_after(c.exts, list, age),
            users: users_after(c.users, list),
            top_files: files_after(c.top_files, limit, list),
            total_usage: (c.total_usage + batch_bytes(list)) as u64,
            total_entries: (c.total_entries + list.len()) as u64,
        }
    }
}

/// What the batches of `batches` have told, handed in in turn.
pub open spec fn absorbed_all(
    c: Counts,
    root: Seq<u8>,
    limit: nat,
    age: AgeFilter,
    batches: Seq<Seq<EntryView>>,
) -> Counts
    decreases batches.len(),
{
    if batches.len() == 0 {
        c
    } else {
        absorbed(absorbed_all(c, root, limit, age, batches.drop_last()), root, limit, age, batches.last())
    }
}

/// Two states of which batches have told the same.
pub open spec fn same_counts(a: &AllStats, b: &AllStats) -> bool {
    a.counts() == b.counts()
}

impl AllStats {
    /// What the batches have told so far.
    pub open spec fn counts(&self) -> Counts {
        Counts {
            dirs: self.dtree@,
            exts: self.extensions@,
            users: self.user_map@,
            top_files: self.top_files@,
            total_usage: self.total_usage,
            total_entries: self.total_entries,
        }
    }

    /// What holds of the tables that are filled entry by entry.
    pub open spec fn tables_wf(&self) -> bool {
        &&& self.extensions.wf()
        &&& self.top_files.wf()
        &&& self.top_files.capacity() == self.limit
        &&& totals_within(self.extensions@, self.total_usage as int)
        &&& users_within(self.user_map@, self.total_entries as int, self.total_usage as int)
    }

    /// What holds of every state made here.
    pub open spec fn wf(&self) -> bool {
        &&& self.tables_wf()
        &&& self.dtree.wf()
        &&& all_within(self.dtree@, self.root@)
        &&& closed_under_parent(self.dtree@, self.root@)
        &&& total_direct(self.dtree@, Measure::Size) <= self.total_usage
        &&& total_direct(self.dtree@, Measure::Files) <= self.total_entries
        &&& total_direct(self.dtree@, Measure::Dirs) <= self.total_entries
        &&& self.top_dir.wf() && self.top_dir.capacity() == self.limit
        &&& self.top_cnt_dir.wf() && self.top_cnt_dir.capacity() == self.limit
        &&& self.top_cnt_file.wf() && self.top_cnt_file.capacity() == self.limit
        &&& self.top_cnt_overall.wf() && self.top_cnt_overall.capacity() == self.limit
        &&& self.top_dir_overall.wf() && self.top_dir_overall.capacity() == self.limit
        &&& self.top_ext.wf() && self.top_ext.capacity() == self.limit
    }

    /// The state before the first batch of a scan that starts from `root`.
    /// Separators at the end of `root` are left out, so that the entries
    /// of the root have it as their parent.
    pub fn new(root: Vec<u8>, limit: usize, age: AgeFilter) -> (r: AllStats)
        ensures
            r.wf(),
            r.root@ == trimmed(root@),
            r.limit == limit,
            r.age == age,
            r.dtree@ == Seq::<DirRecord>::empty(),
            r.extensions@ == Seq::<ExtRecord>::empty(),
            r.user_map@ == Map::<u32, (u64, u64)>::empty(),
            r.top_files@ == Seq::<Ranked>::empty(),
            r.top_dir@ == Seq::<Ranked>::empty(),
            r.top_cnt_dir@ == Seq::<Ranked>::empty(),
            r.top_cnt_file@ == Seq::<Ranked>::empty(),
            r.top_cnt_overall@ == Seq::<Ranked>::empty(),
            r.top_dir_overall@ == Seq::<Ranked>::empty(),
            r.top_ext@ == Seq::<Ranked>::empty(),
            r.total_usage == 0,
            r.total_entries == 0,
    {
        AllStats {
            root: clean_dir(&root),
            limit,
            age,
            dtree: DirTree::new(),
            extensions: ExtTable::new(),
            user_map: BTreeMap::new(),
            top_dir: TopN::new(limit),
            top_cnt_dir: TopN::new(limit),
            top_cnt_file: TopN::new(limit),
            top_cnt_overall: TopN::new(limit),
            top_dir_overall: TopN::new(limit),
            top_files: TopN::new(limit),
            top_ext: TopN::new(limit),
            total_usage: 0,
            total_entries: 0,
        }
    }

    /// Counts one entry for its owner, its extension and the total, and
    /// offers it to the ranking of largest files.
    #[verifier::rlimit(40)]
    fn count_entry(&mut self, e: &Entry)
        requires
            old(self).tables_wf(),
            old(self).total_usage + e.meta.size <= u64::MAX,
            old(self).total_entries + 1 <= u64::MAX,
        ensures
            final(self).tables_wf(),
            same_settings(final(self), old(self)),
            same_rankings(final(self), old(self)),
            final(self).dtree == old(self).dtree,
            final(self).total_usage == old(self).total_usage + e.meta.size,
            final(self).total_entries == old(self).total_entries + 1,
            final(self).user_map@ == credit_user(old(self).user_map@, e.meta.uid, e.meta.size),
            final(self).extensions@ == ext_step(old(self).extensions@, e@, old(self).age),
            final(self).top_files@ == offer(
                old(self).top_files@,
                old(self).limit as nat,
                Ranked { score: e.meta.size, name: e.path@ },
            ),
    {
        let size = e.meta.size;
        let uid = e.meta.uid;
        let ghost users0 = self.user_map@;
        let ghost exts0 = self.extensions@;
        track_top_n(&mut self.top_files, &e.path, size);
        let cur: (u64, u64) = match self.user_map.get(&uid) {
            Some(t) => *t,
            None => (0, 0),
        };
        self.user_map.insert(uid, (cur.0 + 1, cur.1 + size));
        self.total_usage = self.total_usage + size;
        self.total_entries = self.total_entries + 1;
        proof {
            assert(self.user_map@ == credit_user(users0, uid, size));
            assert forall|u: u32| self.user_map@.contains_key(u) implies (#[trigger] self.user_map@[u]).0
                <= self.total_entries && self.user_map@[u].1 <= self.total_usage by {
                if u != uid {
                    assert(users0.contains_key(u));
                    assert(users0[u].0 <= self.total_entries - 1);
                }
            }
        }
        if self.age.passes(e.meta.mtime) && e.meta.kind == EntryKind::File {
            match multi_extension(&e.path) {
                Some(x) => {
                    proof {
                        self.extensions.lemma_wf_sorted();
                        lemma_credited_within(exts0, x@, size, old(self).total_usage as int);
                        if has_name(exts0, x@) {
                            assert(exts0[name_index(exts0, x@)].total <= old(self).total_usage);
                        }
                    }
                    self.extensions.credit(&x, size);
                },
                None => {},
            }
        }
        proof {
            assert forall|i: int| 0 <= i < self.extensions@.len()
                implies (#[trigger] self.extensions@[i]).total <= self.total_usage by {
                if self.extensions@ == exts0 {
                    assert(exts0[i].total <= old(self).total_usage);
                }
            }
        }
    }

    /// Takes in one batch: the entries found in one directory.
    ///
    /// An empty batch, one whose first entry has no parent, and one whose
    /// directory lies outside the root change nothing. Otherwise every
    /// entry is counted, and the directory of the batch and the
    /// directories above it up to the root get a record. Where the total
    /// of bytes or the number of entries would pass 64 bits, nothing is
    /// changed and the batch is refused.
    #[verifier::rlimit(40)]
    pub fn absorb_batch(&mut self, list: &Vec<Entry>) -> (r: Result<(), StatsError>)
        requires
            old(self).wf(),
        ensures
            final(self).wf(),
            same_settings(final(self), old(self)),
            same_rankings(final(self), old(self)),
            r is Err <==> accepts(old(self).root@, entries_of(list@))
                && refuses(old(self).counts(), entries_of(list@)),
            final(self).counts() == absorbed(
                old(self).counts(),
                old(self).root@,
                old(self).limit as nat,
                old(self).age,
                entries_of(list@),
            ),
    {
        let ghost batch = entries_of(list@);
        let n = list.len();
        if n == 0 {
            return Ok(());
        }
        assert(batch[0] == list@[0]@);
        let dir = match parent(&list[0].path) {
            None => {
                return Ok(());
            },
            Some(d) => d,
        };
        if child_is_higher_than_base_dir(&self.root, &dir) {
            return Ok(());
        }
        let room: u64 = u64::MAX - self.total_usage;
        if batch_total(list, room).is_none() {
            return Err(StatsError::Overflow);
        }
        if n as u64 > u64::MAX - self.total_entries {
            return Err(StatsError::Overflow);
        }
        self.dtree.ensure_chain(&self.root, &dir);
        let ghost chained = self.dtree@;
        let (found, idx) = self.dtree.find(&dir);
        let (dsize, dfiles, ddirs) = self.count_entries(list);
        proof {
            self.dtree.lemma_wf_sorted();
            lemma_sorted_distinct(chained, idx as int, index_of(chained, dir@));
            lemma_sum_direct_covers(chained, chained.len() as int, idx as int, Measure::Size);
            lemma_sum_direct_covers(chained, chained.len() as int, idx as int, Measure::Files);
            lemma_sum_direct_covers(chained, chained.len() as int, idx as int, Measure::Dirs);
            lemma_raise_keeps(chained, idx as int, dsize, dfiles, ddirs, self.root@);
        }
        self.dtree.add_direct(idx, dsize, dfiles, ddirs);
        Ok(())
    }

    /// Counts every entry of a batch, and returns what the batch adds to
    /// the direct counts of its directory: bytes, files, directories.
    #[verifier::rlimit(40)]
    fn count_entries(&mut self, list: &Vec<Entry>) -> (r: (u64, u64, u64))
        requires
            old(self).tables_wf(),
            old(self).total_usage + batch_bytes(entries_of(list@)) <= u64::MAX,
            old(self).total_entries + list@.len() <= u64::MAX,
        ensures
            final(self).tables_wf(),
            same_settings(final(self), old(self)),
            same_rankings(final(self), old(self)),
            final(self).dtree == old(self).dtree,
            final(self).total_usage == old(self).total_usage + batch_bytes(entries_of(list@)),
            final(self).total_entries == old(self).total_entries + list@.len(),
            final(self).user_map@ == users_after(old(self).user_map@, entries_of(list@)),
            final(self).extensions@ == exts_after(old(self).extensions@, entries_of(list@), old(self).age),
            final(self).top_files@
                == files_after(old(self).top_files@, old(self).limit as nat, entries_of(list@)),
            r.0 == direct_bytes(entries_of(list@), old(self).age),
            r.1 == direct_files(entries_of(list@), old(self).age),
            r.2 == direct_dirs(entries_of(list@), old(self).age),
            r.0 <= batch_bytes(entries_of(list@)),
            r.1 <= list@.len(),
            r.2 <= list@.len(),
    {
        let ghost batch = entries_of(list@);
        let ghost total0 = self.total_usage;
        let ghost entries0 = self.total_entries;
        let n = list.len();
        let mut dsize: u64 = 0;
        let mut dfiles: u64 = 0;
        let mut ddirs: u64 = 0;
        let mut i: usize = 0;
        while i < n
            invariant
                n == list@.len(),
                batch == entries_of(list@),
                i <= n,
                self.tables_wf(),
                same_settings(self, old(self)),
                same_rankings(self, old(self)),
                self.dtree == old(self).dtree,
                total0 == old(self).total_usage,
                entries0 == old(self).total_entries,
                total0 + batch_bytes(batch) <= u64::MAX,
                entries0 + n <= u64::MAX,
                self.total_usage == total0 + batch_bytes(batch.take(i as int)),
                self.total_entries == entries0 + i,
                self.user_map@ == users_after(old(self).user_map@, batch.take(i as int)),
                self.extensions@ == exts_after(old(self).extensions@, batch.take(i as int), old(self).age),
                self.top_files@
                    == files_after(old(self).top_files@, old(self).limit as nat, batch.take(i as int)),
                dsize == direct_bytes(batch.take(i as int), old(self).age),
                dfiles == direct_files(batch.take(i as int), old(self).age),
                ddirs == direct_dirs(batch.take(i as int), old(self).age),
                dsize <= batch_bytes(batch.take(i as int)),
                dfiles <= i,
                ddirs <= i,
            decreases n - i,
        {
            proof {
                lemma_entries_take(list@, i as int);
                lemma_batch_bytes_mono(batch, i + 1);
            }
            let e = &list[i];
            self.count_entry(e);
            if self.age.passes(e.meta.mtime) {
                match e.meta.kind {
                    EntryKind::File => {
                        dfiles = dfiles + 1;
                        dsize = dsize + e.meta.size;
                    },
                    EntryKind::Dir => {
                        ddirs = ddirs + 1;
                        dsize = dsize + e.meta.size;
                    },
                    _ => {},
                }
            }
            i = i + 1;
        }
        proof {
            lemma_entries_take(list@, n as int);
        }
        (dsize, dfiles, ddirs)
    }

    /// Rolls up the recursive counts and makes the rankings of
    /// directories and extensions from the tree and the table as they are.
    #[verifier::rlimit(40)]
    pub fn finish(&mut self)
        requires
            old(self).wf(),
        ensures
            final(self).wf(),
            same_settings(final(self), old(self)),
            same_directs(final(self).dtree@, old(self).dtree@),
            rolled_up(final(self).dtree@),
            child_sum(final(self).dtree@, final(self).root@, Measure::Size) <= final(self).total_usage,
            forall|i: int|
                0 <= i < final(self).dtree@.len() ==> {
                    let st = (#[trigger] final(self).dtree@[i]).stats;
                    &&& st.size_recursively >= st.size_directly
                    &&& st.file_count_recursively >= st.file_count_directly
                    &&& st.dir_count_recursively >= st.dir_count_directly
                },
            final(self).extensions@ == old(self).extensions@,
            final(self).user_map@ == old(self).user_map@,
            final(self).top_files@ == old(self).top_files@,
            final(self).total_usage == old(self).total_usage,
            final(self).total_entries == old(self).total_entries,
            final(self).top_dir@
                == offer_all(old(self).limit as nat, dir_items(final(self).dtree@, DirScore::SizeDirect)),
            final(self).top_cnt_dir@
                == offer_all(old(self).limit as nat, dir_items(final(self).dtree@, DirScore::DirsDirect)),
            final(self).top_cnt_file@
                == offer_all(old(self).limit as nat, dir_items(final(self).dtree@, DirScore::FilesDirect)),
            final(self).top_cnt_overall@ == offer_all(
                old(self).limit as nat,
                dir_items(final(self).dtree@, DirScore::FilesRecursive),
            ),
            final(self).top_dir_overall@ == offer_all(
                old(self).limit as nat,
                dir_items(final(self).dtree@, DirScore::SizeRecursive),
            ),
            final(self).top_ext@ == offer_all(old(self).limit as nat, ext_items(final(self).extensions@)),
    {
        let ghost tree0 = self.dtree@;
        self.dtree.roll_up();
        proof {
            lemma_same_directs_total(self.dtree@, tree0);
            assert forall|k: int| 0 <= k < tree0.len() implies (#[trigger] self.dtree@[k]).path
                == tree0[k].path by {}
            lemma_same_paths_keep(tree0, self.dtree@, self.root@);
        }
        self.top_dir = rank_dirs(&self.dtree, self.limit, DirScore::SizeDirect);
        self.top_cnt_dir = rank_dirs(&self.dtree, self.limit, DirScore::DirsDirect);
        self.top_cnt_file = rank_dirs(&self.dtree, self.limit, DirScore::FilesDirect);
        self.top_cnt_overall = rank_dirs(&self.dtree, self.limit, DirScore::FilesRecursive);
        self.top_dir_overall = rank_dirs(&self.dtree, self.limit, DirScore::SizeRecursive);
        self.top_ext = rank_exts(&self.extensions, self.limit);
        proof {
            lemma_root_children_bounded(self.dtree@, self.root@, self.total_usage as int);
        }
    }

    /// The statistics recorded for the directory `path`, if any.
    pub fn dir_stats(&self, path: &Vec<u8>) -> (r: Option<DirStats>)
        requires
            self.wf(),
        ensures
            match r {
                Some(st) => has_path(self.dtree@, path@) && st
                    == self.dtree@[index_of(self.dtree@, path@)].stats,
                None => !has_path(self.dtree@, path@),
            },
    {
        let (found, idx) = self.dtree.find(path);
        if found {
            proof {
                self.dtree.lemma_wf_sorted();
                lemma_sorted_distinct(self.dtree@, idx as int, index_of(self.dtree@, path@));
            }
            Some(self.dtree.stats_at(idx))
        } else {
            None
        }
    }

    /// Number of entries and bytes counted for the owner `uid`, if any.
    pub fn user_usage(&self, uid: u32) -> (r: Option<(u64, u64)>)
        ensures
            match r {
                Some(t) => self.user_map@.contains_key(uid) && self.user_map@[uid] == t,
                None => !self.user_map@.contains_key(uid),
            },
    {
        match self.user_map.get(&uid) {
            Some(t) => Some(*t),
            None => None,
        }
    }
}

/// After the roll-up, what lies directly in the root takes up no more
/// than the total: the recursive sizes of the root's children, summed, are
/// at most the total of bytes.
pub proof fn law_children_within_total(st: AllStats)
    requires
        st.wf(),
        rolled_up(st.dtree@),
    ensures
        child_sum(st.dtree@, st.root@, Measure::Size) <= st.total_usage,
{
    lemma_root_children_bounded(st.dtree@, st.root@, st.total_usage as int);
}

} // verus!
