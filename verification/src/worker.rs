//! What a directory worker decides: which entries of a directory go into
//! its batch, and which directories are queued.
//!
//! A worker pops a directory, lists it, hands the batch of its entries on
//! and then queues the directories found in it. Symbolic links are never
//! taken, so the scan cannot leave the tree or run in a circle. A
//! directory that cannot be listed gives no batch, and the worker goes on.

use vstd::prelude::*;
use crate::entry::{Entry, EntryKind, EntryMeta, EntryView, entries_of};
use crate::filter::Filters;
use crate::lex::{copy_bytes, keys_of};
use crate::path::{check_entry_name, has_parent, is_clean_dir, is_entry_name, join, join_path,
    lemma_parent_of_join, parent_of};

verus! {

/// One entry as the listing of a directory gives it: its name in the
/// directory, and its metadata, taken without following a link.
#[derive(Debug)]
pub struct DirChild {
    pub name: Vec<u8>,
    pub meta: EntryMeta,
}

/// A listed entry, as contracts see it.
pub struct DirChildView {
    pub name: Seq<u8>,
    pub meta: EntryMeta,
}

impl View for DirChild {
    type V = DirChildView;

    open spec fn view(&self) -> DirChildView {
        DirChildView { name: self.name@, meta: self.meta }
    }
}

/// The listed entries that a vector holds, in its order.
pub open spec fn children_of(v: Seq<DirChild>) -> Seq<DirChildView> {
    Seq::new(v.len(), |i: int| v[i]@)
}

/// What a worker does with one entry.
#[derive(Debug, Clone, Copy, PartialEq, Eq, Structural)]
pub enum Verdict {
    /// It is left out.
    Skip,
    /// It goes into the batch.
    File,
    /// It goes into the batch, and is queued to be listed.
    Dir,
}

/// What a worker does with the entry `c` of the directory `dir`: a
/// directory is always taken, a file if it passes the filters, and
/// nothing else is. An entry whose name is none is left out.
pub open spec fn verdict(filters: &Filters, dir: Seq<u8>, c: DirChildView) -> Verdict {
    if !is_entry_name(c.name) {
        Verdict::Skip
    } else {
        match c.meta.kind {
            EntryKind::Dir => Verdict::Dir,
            EntryKind::File => if filters.allows(join(dir, c.name), c.meta.mtime) {
                Verdict::File
            } else {
                Verdict::Skip
            },
            _ => Verdict::Skip,
        }
    }
}

/// The batch of the directory `dir` with the entries `children`.
pub open spec fn batch_of(filters: &Filters, dir: Seq<u8>, children: Seq<DirChildView>) -> Seq<EntryView>
    decreases children.len(),
{
    if children.len() == 0 {
        Seq::empty()
    } else {
        let rest = batch_of(filters, dir, children.drop_last());
        let c = children.last();
        if verdict(filters, dir, c) != Verdict::Skip {
            rest.push(EntryView { path: join(dir, c.name), meta: c.meta })
        } else {
            rest
        }
    }
}

/// The directories found in the directory `dir` with the entries
/// `children`.
pub open spec fn subdirs_of(filters: &Filters, dir: Seq<u8>, children: Seq<DirChildView>) -> Seq<Seq<u8>>
    decreases children.len(),
{
    if children.len() == 0 {
        Seq::empty()
    } else {
        let rest = subdirs_of(filters, dir, children.drop_last());
        let c = children.last();
        if verdict(filters, dir, c) == Verdict::Dir {
            rest.push(join(dir, c.name))
        } else {
            rest
        }
    }
}

/// Every entry of a batch is a file or a directory, never a symbolic
/// link, and all entries have the same parent. The parent is the
/// directory listed, if its path is clean.
pub proof fn law_batch_shares_parent(filters: &Filters, dir: Seq<u8>, children: Seq<DirChildView>)
    ensures
        forall|i: int|
            0 <= i < batch_of(filters, dir, children).len() ==> {
                let e = #[trigger] batch_of(filters, dir, children)[i];
                &&& e.meta.kind == EntryKind::File || e.meta.kind == EntryKind::Dir
                &&& has_parent(e.path)
                &&& parent_of(e.path) == parent_of(join(dir, seq![0u8]))
                &&& is_clean_dir(dir) ==> parent_of(e.path) == dir
            },
    decreases children.len(),
{
    if children.len() > 0 {
        let rest = batch_of(filters, dir, children.drop_last());
        let c = children.last();
        law_batch_shares_parent(filters, dir, children.drop_last());
        if verdict(filters, dir, c) != Verdict::Skip {
            lemma_parent_of_join(dir, c.name);
        }
        let b = batch_of(filters, dir, children);
        assert forall|i: int| 0 <= i < b.len() implies {
            let e = #[trigger] b[i];
            &&& e.meta.kind == EntryKind::File || e.meta.kind == EntryKind::Dir
            &&& has_parent(e.path)
            &&& parent_of(e.path) == parent_of(join(dir, seq![0u8]))
            &&& is_clean_dir(dir) ==> parent_of(e.path) == dir
        } by {
            if i < rest.len() {
                assert(b[i] == rest[i]);
            }
        }
    }
}

/// What a worker lets through passes the filters again: every file of a
/// batch passes the filters it was made with.
pub proof fn law_batch_files_pass(filters: &Filters, dir: Seq<u8>, children: Seq<DirChildView>, i: int)
    requires
        0 <= i < batch_of(filters, dir, children).len(),
        batch_of(filters, dir, children)[i].meta.kind == EntryKind::File,
    ensures
        filters.allows(batch_of(filters, dir, children)[i].path,
            batch_of(filters, dir, children)[i].meta.mtime),
    decreases children.len(),
{
    if children.len() > 0 {
        let rest = batch_of(filters, dir, children.drop_last());
        if i < rest.len() {
            law_batch_files_pass(filters, dir, children.drop_last(), i);
        }
    }
}

/// The batch of a directory is settled by its listing and the filters:
/// listed twice with the same filters, a directory gives the same batch
/// and the same directories to queue.
pub proof fn law_same_listing_same_batch(filters: &Filters, again: &Filters, dir: Seq<u8>,
    children: Seq<DirChildView>)
    requires
        filters.re == again.re,
        filters.exclude_re == again.exclude_re,
        filters.age == again.age,
    ensures
        batch_of(filters, dir, children) == batch_of(again, dir, children),
        subdirs_of(filters, dir, children) == subdirs_of(again, dir, children),
    decreases children.len(),
{
    if children.len() > 0 {
        law_same_listing_same_batch(filters, again, dir, children.drop_last());
    }
}

/// Directories are queued whatever the filters say: any two filters give
/// the same directories to queue.
pub proof fn law_directories_pass_every_filter(
    filters: &Filters,
    others: &Filters,
    dir: Seq<u8>,
    children: Seq<DirChildView>,
)
    ensures
        subdirs_of(filters, dir, children) == subdirs_of(others, dir, children),
    decreases children.len(),
{
    if children.len() > 0 {
        law_directories_pass_every_filter(filters, others, dir, children.drop_last());
    }
}

/// Whether `path` is the path of a directory among `children` of `dir`
/// that has a proper name.
pub open spec fn is_listed_dir(dir: Seq<u8>, children: Seq<DirChildView>, path: Seq<u8>) -> bool {
    exists|j: int|
        0 <= j < children.len() && (#[trigger] children[j]).meta.kind == EntryKind::Dir && is_entry_name(
            children[j].name,
        ) && path == join(dir, children[j].name)
}

/// Only directories are queued: what is queued is the path of a listed
/// entry that is a directory, never that of a symbolic link or of
/// anything else.
pub proof fn law_queued_are_directories(filters: &Filters, dir: Seq<u8>, children: Seq<DirChildView>, i: int)
    requires
        0 <= i < subdirs_of(filters, dir, children).len(),
    ensures
        is_listed_dir(dir, children, subdirs_of(filters, dir, children)[i]),
    decreases children.len(),
{
    if children.len() > 0 {
        let before = children.drop_last();
        let rest = subdirs_of(filters, dir, before);
        if i < rest.len() {
            law_queued_are_directories(filters, dir, before, i);
            let j = choose|j: int|
                0 <= j < before.len() && (#[trigger] before[j]).meta.kind == EntryKind::Dir && is_entry_name(
                    before[j].name,
                ) && rest[i] == join(dir, before[j].name);
            assert(children[j] == before[j]);
        } else {
            let j = children.len() - 1;
            assert(children[j].meta.kind == EntryKind::Dir && is_entry_name(children[j].name));
        }
    }
}

/// Where the pattern that files must match matches the path of no listed
/// entry, no file is in the batch: it holds the directories alone.
pub proof fn law_no_match_no_file(filters: &Filters, dir: Seq<u8>, children: Seq<DirChildView>, i: int)
    requires
        0 <= i < batch_of(filters, dir, children).len(),
    ensures
        (filters.re is Some && forall|j: int|
            0 <= j < children.len() ==> !crate::filter::regex_matches(
                filters.re->0@,
                join(dir, (#[trigger] children[j]).name),
            )) ==> batch_of(filters, dir, children)[i].meta.kind == EntryKind::Dir,
    decreases children.len(),
{
    if children.len() > 0 {
        let before = children.drop_last();
        let rest = batch_of(filters, dir, before);
        if filters.re is Some && forall|j: int|
            0 <= j < children.len() ==> !crate::filter::regex_matches(
                filters.re->0@,
                join(dir, (#[trigger] children[j]).name),
            ) {
            assert forall|j: int| 0 <= j < before.len() implies !crate::filter::regex_matches(
                filters.re->0@,
                join(dir, (#[trigger] before[j]).name),
            ) by {
                assert(before[j] == children[j]);
            }
            assert(children[children.len() - 1] == children.last());
        }
        if i < rest.len() {
            law_no_match_no_file(filters, dir, before, i);
        }
    }
}

/// Whether `batch` holds the directory `path`.
pub open spec fn holds_dir(batch: Seq<EntryView>, path: Seq<u8>) -> bool {
    exists|j: int| 0 <= j < batch.len() && (#[trigger] batch[j]).path == path && batch[j].meta.kind
        == EntryKind::Dir
}

/// Every directory that is queued stands in the batch as a directory.
pub proof fn law_subdirs_in_batch(filters: &Filters, dir: Seq<u8>, children: Seq<DirChildView>, i: int)
    requires
        0 <= i < subdirs_of(filters, dir, children).len(),
    ensures
        holds_dir(batch_of(filters, dir, children), subdirs_of(filters, dir, children)[i]),
    decreases children.len(),
{
    if children.len() > 0 {
        let rest = batch_of(filters, dir, children.drop_last());
        let rest_dirs = subdirs_of(filters, dir, children.drop_last());
        let b = batch_of(filters, dir, children);
        let d = subdirs_of(filters, dir, children);
        if i < rest_dirs.len() {
            law_subdirs_in_batch(filters, dir, children.drop_last(), i);
            assert(d[i] == rest_dirs[i]);
            let j = choose|j: int|
                0 <= j < rest.len() && (#[trigger] rest[j]).path == rest_dirs[i] && rest[j].meta.kind
                    == EntryKind::Dir;
            assert(b[j] == rest[j]);
        } else {
            let j = b.len() - 1;
            assert(b[j].path == d[i] && b[j].meta.kind == EntryKind::Dir);
        }
    }
}

/// What a worker hands on after it has listed a directory.
#[derive(Debug)]
pub struct Listing {
    /// The batch, for the aggregator.
    pub metalist: Vec<Entry>,
    /// The directories to list next, for the work queue.
    pub other_dirs: Vec<Vec<u8>>,
}

/// Whether the entry `c` goes into the batch of `dir`, and whether it is
/// queued. Returns the path of the entry with the verdict.
pub fn judge(filters: &Filters, dir: &Vec<u8>, c: &DirChild) -> (r: (Verdict, Vec<u8>))
    ensures
        r.0 == verdict(filters, dir@, c@),
        r.1@ == join(dir@, c.name@),
{
    let path = join_path(dir, &c.name);
    if !check_entry_name(&c.name) {
        return (Verdict::Skip, path);
    }
    match c.meta.kind {
        EntryKind::Dir => (Verdict::Dir, path),
        EntryKind::File => {
            if filters.passes(&path, c.meta.mtime) {
                (Verdict::File, path)
            } else {
                (Verdict::Skip, path)
            }
        },
        _ => (Verdict::Skip, path),
    }
}

/// Makes the batch of the directory `dir` from its listing, and the list
/// of the directories found in it.
pub fn scan_listing(filters: &Filters, dir: &Vec<u8>, children: &Vec<DirChild>) -> (r: Listing)
    ensures
        entries_of(r.metalist@) == batch_of(filters, dir@, children_of(children@)),
        keys_of(r.other_dirs@) == subdirs_of(filters, dir@, children_of(children@)),
        forall|i: int|
            0 <= i < r.metalist@.len() ==> {
                let e = #[trigger] r.metalist@[i];
                &&& e.meta.kind == EntryKind::File || e.meta.kind == EntryKind::Dir
                &&& has_parent(e.path@)
                &&& parent_of(e.path@) == parent_of(r.metalist@[0].path@)
                &&& is_clean_dir(dir@) ==> parent_of(e.path@) == dir@
            },
{
    let ghost all = children_of(children@);
    let mut metalist: Vec<Entry> = Vec::new();
    let mut other_dirs: Vec<Vec<u8>> = Vec::new();
    let n = children.len();
    let mut i: usize = 0;
    while i < n
        invariant
            n == children@.len(),
            all == children_of(children@),
            i <= n,
            entries_of(metalist@) == batch_of(filters, dir@, all.take(i as int)),
            keys_of(other_dirs@) == subdirs_of(filters, dir@, all.take(i as int)),
        decreases n - i,
    {
        let c = &children[i];
        let ghost before = entries_of(metalist@);
        let ghost dirs_before = keys_of(other_dirs@);
        proof {
            assert(all.take(i + 1).drop_last() =~= all.take(i as int));
            assert(all.take(i + 1).last() == c@);
        }
        let (v, path) = judge(filters, dir, c);
        match v {
            Verdict::Skip => {},
            Verdict::File => {
                metalist.push(Entry { path, meta: c.meta });
                proof {
                    assert(entries_of(metalist@) =~= before.push(EntryView { path: join(dir@, c.name@),
                        meta: c.meta }));
                }
            },
            Verdict::Dir => {
                let queued = copy_bytes(&path);
                metalist.push(Entry { path, meta: c.meta });
                other_dirs.push(queued);
                proof {
                    assert(entries_of(metalist@) =~= before.push(EntryView { path: join(dir@, c.name@),
                        meta: c.meta }));
                    assert(keys_of(other_dirs@) =~= dirs_before.push(join(dir@, c.name@)));
                }
            },
        }
        i = i + 1;
    }
    proof {
        assert(all.take(n as int) =~= all);
        law_batch_shares_parent(filters, dir@, all);
        let batch = entries_of(metalist@);
        assert forall|i: int| 0 <= i < metalist@.len() implies {
            let e = #[trigger] metalist@[i];
            &&& e.meta.kind == EntryKind::File || e.meta.kind == EntryKind::Dir
            &&& has_parent(e.path@)
            &&& parent_of(e.path@) == parent_of(metalist@[0].path@)
            &&& is_clean_dir(dir@) ==> parent_of(e.path@) == dir@
        } by {
            assert(batch[i] == metalist@[i]@);
            assert(batch[0] == metalist@[0]@);
        }
    }
    Listing { metalist, other_dirs }
}

/// What a worker does after a pop.
#[derive(Debug)]
pub enum WorkerAction {
    /// The sentinel came: the worker ends.
    Exit,
    /// A directory came: the worker lists it.
    List(Vec<u8>),
}

/// What a worker does with what it popped: `None` is the sentinel that
/// ends it, anything else a directory to list.
pub fn after_pop(item: Option<Vec<u8>>) -> (r: WorkerAction)
    ensures
        match item {
            None => r is Exit,
            Some(p) => r == WorkerAction::List(p),
        },
{
    match item {
        None => WorkerAction::Exit,
        Some(p) => WorkerAction::List(p),
    }
}

/// What a worker hands on after it tried to list a directory.
#[derive(Debug)]
pub struct Handoff {
    /// The batch to publish; none if the listing failed or nothing of it
    /// was taken.
    pub batch: Option<Vec<Entry>>,
    /// The directories to queue, after the batch was published.
    pub dirs: Vec<Vec<u8>>,
}

/// What a worker hands on after it tried to list `dir`; `children` is
/// `None` where the directory could not be read. A failed listing hands
/// on nothing, and the worker goes on with its next pop. A batch is
/// published only if it is not empty.
pub fn after_listing(filters: &Filters, dir: &Vec<u8>, children: Option<&Vec<DirChild>>) -> (r: Handoff)
    ensures
        match children {
            None => r.batch is None && r.dirs@.len() == 0,
            Some(list) => {
                let batch = batch_of(filters, dir@, children_of(list@));
                &&& keys_of(r.dirs@) == subdirs_of(filters, dir@, children_of(list@))
                &&& batch.len() == 0 ==> r.batch is None
                &&& batch.len() > 0 ==> r.batch is Some && entries_of(r.batch->0@) == batch
            },
        },
{
    match children {
        None => Handoff { batch: None, dirs: Vec::new() },
        Some(list) => {
            let listing = scan_listing(filters, dir, list);
            let batch = if listing.metalist.len() == 0 {
                None
            } else {
                Some(listing.metalist)
            };
            Handoff { batch, dirs: listing.other_dirs }
        },
    }
}

} // verus!
