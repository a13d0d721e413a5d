//! The usage report: which sections it has, and the rows of each.
//!
//! The report begins with the usage per owner, the largest first. The
//! rankings follow. A section without rows is left out. Counts are shown
//! with their digits in groups of three.

use std::collections::BTreeMap;
use vstd::prelude::*;
use vstd::std_specs::iter::IteratorSpec;
use crate::stats::AllStats;
use crate::topn::{Ranked, TopN};

verus! {

/// The usage of one owner.
#[derive(Debug, Clone, Copy, PartialEq, Eq, Structural)]
pub struct UserUsage {
    pub uid: u32,
    /// Number of entries.
    pub count: u64,
    /// Bytes of these entries.
    pub size: u64,
}

/// Whether `a` stands before `b` in the report: the larger usage first,
/// and of two equal ones the lower owner number.
pub open spec fn ranks_before(a: UserUsage, b: UserUsage) -> bool {
    a.size > b.size || (a.size == b.size && a.uid < b.uid)
}

/// Whether `rows` lists the usage per owner `m`: every owner once, with
/// its usage, the larger usage first.
pub open spec fn lists_users(rows: Seq<UserUsage>, m: Map<u32, (u64, u64)>) -> bool {
    &&& rows.len() == m.dom().len()
    &&& forall|i: int| 0 <= i < rows.len() ==> m.contains_key((#[trigger] rows[i]).uid) && m[rows[i].uid]
        == (rows[i].count, rows[i].size)
    &&& forall|i: int, j: int| 0 <= i < j < rows.len()
        ==> ranks_before(#[trigger] rows[i], #[trigger] rows[j])
}

/// Whether `a` stands before `b` in the report.
pub fn stands_before(a: &UserUsage, b: &UserUsage) -> (r: bool)
    ensures
        r == ranks_before(*a, *b),
{
    a.size > b.size || (a.size == b.size && a.uid < b.uid)
}

/// Puts `row` at its place among `rows`.
fn place_row(rows: &mut Vec<UserUsage>, row: UserUsage)
    requires
        forall|i: int, j: int| 0 <= i < j < old(rows)@.len()
            ==> ranks_before(#[trigger] old(rows)@[i], #[trigger] old(rows)@[j]),
        forall|i: int| 0 <= i < old(rows)@.len() ==> (#[trigger] old(rows)@[i]).uid != row.uid,
    ensures
        forall|i: int, j: int| 0 <= i < j < final(rows)@.len()
            ==> ranks_before(#[trigger] final(rows)@[i], #[trigger] final(rows)@[j]),
        exists|pos: int| 0 <= pos <= old(rows)@.len() && final(rows)@ == old(rows)@.insert(pos, row),
{
    let ghost before = rows@;
    let mut pos: usize = 0;
    while pos < rows.len() && stands_before(&rows[pos], &row)
        invariant
            rows@ == before,
            pos <= rows.len(),
            forall|i: int| 0 <= i < pos ==> ranks_before(#[trigger] before[i], row),
        decreases rows.len() - pos,
    {
        pos = pos + 1;
    }
    rows.insert(pos, row);
    proof {
        let after = rows@;
        assert(after == before.insert(pos as int, row));
        assert forall|i: int, j: int| 0 <= i < j < after.len()
            implies ranks_before(#[trigger] after[i], #[trigger] after[j]) by {
            if j < pos {
                assert(after[i] == before[i] && after[j] == before[j]);
            } else if j == pos {
                assert(after[i] == before[i]);
            } else if i < pos {
                assert(after[i] == before[i] && after[j] == before[j - 1]);
            } else if i == pos {
                assert(after[j] == before[j - 1]);
                assert(before[pos as int].uid != row.uid);
                if j - 1 > pos {
                    assert(ranks_before(before[pos as int], before[j - 1]));
                }
            } else {
                assert(after[i] == before[i - 1] && after[j] == before[j - 1]);
            }
        }
    }
}

/// Whether `row` tells what one of the first `n` of `all` tells.
pub open spec fn came_from(row: UserUsage, all: Seq<(&u32, &(u64, u64))>, n: int) -> bool {
    exists|k: int| 0 <= k < n && k < all.len() && row.uid == *(#[trigger] all[k]).0 && (row.count, row.size)
        == *all[k].1
}

/// The usage per owner, as the report shows it: the largest first.
#[verifier::rlimit(40)]
pub fn user_rows(users: &BTreeMap<u32, (u64, u64)>) -> (rows: Vec<UserUsage>)
    ensures
        lists_users(rows@, users@),
{
    let mut rows: Vec<UserUsage> = Vec::new();
    let it = users.iter();
    let ghost all = it.remaining();
    proof {
        vstd::std_specs::btree::axiom_spec_btree_map_iter(users);
    }
    for kv in iter: it
        invariant
            iter.seq() == all,
            all.no_duplicates(),
            all.len() == users@.dom().len(),
            forall|i: int| 0 <= i < all.len() ==> users@.contains_key(*(#[trigger] all[i]).0)
                && users@[*all[i].0] == *all[i].1,
            rows@.len() == iter.index(),
            forall|i: int, j: int| 0 <= i < j < rows@.len()
                ==> ranks_before(#[trigger] rows@[i], #[trigger] rows@[j]),
            forall|i: int| 0 <= i < rows@.len() ==> came_from(#[trigger] rows@[i], all, rows@.len() as int),
    {
        let ghost n = iter.index() as int;
        let ghost before = rows@;
        let row = UserUsage { uid: *kv.0, count: kv.1.0, size: kv.1.1 };
        proof {
            assert forall|i: int| 0 <= i < before.len() implies (#[trigger] before[i]).uid != row.uid by {
                assert(came_from(before[i], all, n));
                let k = choose|k: int| 0 <= k < n && k < all.len() && before[i].uid == *(#[trigger] all[k]).0
                    && (before[i].count, before[i].size) == *all[k].1;
                if before[i].uid == row.uid {
                    assert(users@[*all[k].0] == *all[k].1);
                    assert(users@[*all[n].0] == *all[n].1);
                    assert(all[k] == all[n]);
                }
            }
        }
        place_row(&mut rows, row);
        proof {
            let after = rows@;
            let pos = choose|pos: int| 0 <= pos <= before.len() && after == before.insert(pos, row);
            assert forall|i: int| 0 <= i < after.len() implies came_from(#[trigger] after[i], all, n + 1) by {
                if i < pos {
                    assert(after[i] == before[i]);
                    assert(came_from(before[i], all, n));
                    let k = choose|k: int| 0 <= k < n && k < all.len() && before[i].uid
                        == *(#[trigger] all[k]).0 && (before[i].count, before[i].size) == *all[k].1;
                    assert(0 <= k < n + 1 && after[i].uid == *all[k].0 && (after[i].count, after[i].size)
                        == *all[k].1);
                } else if i == pos {
                    assert(0 <= n < n + 1 && after[i].uid == *all[n].0 && (after[i].count, after[i].size)
                        == *all[n].1);
                } else {
                    assert(after[i] == before[i - 1]);
                    assert(came_from(before[i - 1], all, n));
                    let k = choose|k: int| 0 <= k < n && k < all.len() && before[i - 1].uid
                        == *(#[trigger] all[k]).0 && (before[i - 1].count, before[i - 1].size) == *all[k].1;
                    assert(0 <= k < n + 1 && after[i].uid == *all[k].0 && (after[i].count, after[i].size)
                        == *all[k].1);
                }
            }
        }
    }
    proof {
        assert forall|i: int| 0 <= i < rows@.len() implies users@.contains_key((#[trigger] rows@[i]).uid)
            && users@[rows@[i].uid] == (rows@[i].count, rows@[i].size) by {
            assert(came_from(rows@[i], all, rows@.len() as int));
            let k = choose|k: int| 0 <= k < rows@.len() && k < all.len() && rows@[i].uid
                == *(#[trigger] all[k]).0 && (rows@[i].count, rows@[i].size) == *all[k].1;
            assert(users@.contains_key(*all[k].0));
        }
    }
    rows
}

/// The sections of the report, in their order.
#[derive(Debug, Clone, Copy, PartialEq, Eq, Structural)]
pub enum Section {
    /// Usage per owner.
    Users,
    /// Directories by the bytes directly in them.
    TopDir,
    /// Directories by the bytes below them.
    TopDirOverall,
    /// Directories by the files below them.
    TopCntOverall,
    /// Directories by the files directly in them.
    TopCntFile,
    /// Directories by the directories directly in them.
    TopCntDir,
    /// The largest files.
    TopFiles,
    /// Extensions by their bytes.
    TopExt,
}

/// The ranking that a section shows; the usage per owner is none.
pub open spec fn ranking_of(st: &AllStats, s: Section) -> Seq<Ranked> {
    match s {
        Section::Users => Seq::empty(),
        Section::TopDir => st.top_dir@,
        Section::TopDirOverall => st.top_dir_overall@,
        Section::TopCntOverall => st.top_cnt_overall@,
        Section::TopCntFile => st.top_cnt_file@,
        Section::TopCntDir => st.top_cnt_dir@,
        Section::TopFiles => st.top_files@,
        Section::TopExt => st.top_ext@,
    }
}

/// Whether the report has the section `s`: it has rows.
pub open spec fn is_shown(st: &AllStats, s: Section) -> bool {
    match s {
        Section::Users => !st.user_map@.is_empty(),
        _ => ranking_of(st, s).len() > 0,
    }
}

/// All sections in the order of the report.
pub open spec fn all_sections() -> Seq<Section> {
    seq![
        Section::Users,
        Section::TopDir,
        Section::TopDirOverall,
        Section::TopCntOverall,
        Section::TopCntFile,
        Section::TopCntDir,
        Section::TopFiles,
        Section::TopExt,
    ]
}

/// Those of the first `n` sections that the report has.
pub open spec fn shown_among(st: &AllStats, n: int) -> Seq<Section>
    decreases n,
{
    if n <= 0 || n > 8 {
        Seq::empty()
    } else if is_shown(st, all_sections()[n - 1]) {
        shown_among(st, n - 1).push(all_sections()[n - 1])
    } else {
        shown_among(st, n - 1)
    }
}

/// The sections of the report, in their order: those that have rows.
pub fn report_sections(st: &AllStats) -> (r: Vec<Section>)
    ensures
        r@ == shown_among(st, 8),
{
    let mut r: Vec<Section> = Vec::new();
    assert(r@ == shown_among(st, 0));
    if !st.user_map.is_empty() {
        r.push(Section::Users);
    }
    assert(r@ == shown_among(st, 1));
    if !st.top_dir.is_empty() {
        r.push(Section::TopDir);
    }
    assert(r@ == shown_among(st, 2));
    if !st.top_dir_overall.is_empty() {
        r.push(Section::TopDirOverall);
    }
    assert(r@ == shown_among(st, 3));
    if !st.top_cnt_overall.is_empty() {
        r.push(Section::TopCntOverall);
    }
    assert(r@ == shown_among(st, 4));
    if !st.top_cnt_file.is_empty() {
        r.push(Section::TopCntFile);
    }
    assert(r@ == shown_among(st, 5));
    if !st.top_cnt_dir.is_empty() {
        r.push(Section::TopCntDir);
    }
    assert(r@ == shown_among(st, 6));
    if !st.top_files.is_empty() {
        r.push(Section::TopFiles);
    }
    assert(r@ == shown_among(st, 7));
    if !st.top_ext.is_empty() {
        r.push(Section::TopExt);
    }
    r
}

/// The ranking that the section `s` shows.
pub fn section_ranking(st: &AllStats, s: Section) -> (r: Option<&TopN>)
    ensures
        match r {
            Some(top) => s != Section::Users && top@ == ranking_of(st, s),
            None => s == Section::Users,
        },
{
    match s {
        Section::Users => None,
        Section::TopDir => Some(&st.top_dir),
        Section::TopDirOverall => Some(&st.top_dir_overall),
        Section::TopCntOverall => Some(&st.top_cnt_overall),
        Section::TopCntFile => Some(&st.top_cnt_file),
        Section::TopCntDir => Some(&st.top_cnt_dir),
        Section::TopFiles => Some(&st.top_files),
        Section::TopExt => Some(&st.top_ext),
    }
}

/// Whether the scores of a section are counts, shown with grouped digits;
/// the others are sizes in bytes.
pub fn shows_counts(s: Section) -> (r: bool)
    ensures
        r == (s == Section::TopCntOverall || s == Section::TopCntFile || s == Section::TopCntDir),
{
    match s {
        Section::TopCntOverall => true,
        Section::TopCntFile => true,
        Section::TopCntDir => true,
        _ => false,
    }
}

/// The character of the digit `d`.
pub open spec fn digit_char(d: nat) -> char {
    (48 + d) as char
}

/// The decimal digits of `n`, the highest first.
pub open spec fn plain_digits(n: nat) -> Seq<char>
    decreases n,
{
    if n < 10 {
        seq![digit_char(n)]
    } else {
        plain_digits(n / 10).push(digit_char(n % 10))
    }
}

/// The decimal digits of `n` with a comma before every group of three
/// digits but the first: `1,234,567`.
pub open spec fn grouped(n: nat) -> Seq<char>
    decreases n,
{
    if n < 1000 {
        plain_digits(n)
    } else {
        grouped(n / 1000) + seq![',', digit_char(n / 100 % 10), digit_char(n / 10 % 10), digit_char(n % 10)]
    }
}

/// Formats `n` with `num_format::ToFormattedString::to_formatted_string`
/// for the locale `Locale::en`, whose digits stand in groups of three
/// divided by commas.
#[verifier::external_body]
fn format_grouped(n: u64) -> (r: String)
    ensures
        r@ == grouped(n as nat),
{
    num_format::ToFormattedString::to_formatted_string(&n, &num_format::Locale::en)
}

/// One row of a section of counts.
#[derive(Debug)]
pub struct CountRow {
    /// The count, its digits grouped.
    pub label: String,
    pub name: Vec<u8>,
}

/// The rows of a ranking of counts, the highest first, each with its
/// count as it is shown.
pub fn count_rows(top: &TopN) -> (rows: Vec<CountRow>)
    ensures
        rows@.len() == top@.len(),
        forall|i: int| 0 <= i < rows@.len() ==> (#[trigger] rows@[i]).label@ == grouped(top@[i].score as nat)
            && rows@[i].name@ == top@[i].name,
{
    let mut rows: Vec<CountRow> = Vec::new();
    let n = top.len();
    let mut i: usize = 0;
    while i < n
        invariant
            n == top@.len(),
            i <= n,
            rows@.len() == i,
            forall|k: int| 0 <= k < i ==> (#[trigger] rows@[k]).label@ == grouped(top@[k].score as nat)
                && rows@[k].name@ == top@[k].name,
        decreases n - i,
    {
        let label = format_grouped(top.score_at(i));
        let name = top.name_at(i);
        rows.push(CountRow { label, name });
        i = i + 1;
    }
    rows
}

/// The number of entries scanned, as the report shows it: `popped` is
/// the number of entries of all batches that came from the workers,
/// whether their batch was taken in or dropped.
pub fn scanned_label(popped: usize) -> (r: String)
    ensures
        r@ == grouped(popped as nat),
{
    format_grouped(popped as u64)
}

} // verus!
