//! What is known of one entry of a directory, and the age filter.

use vstd::prelude::*;

verus! {

/// The kind of an entry. Symbolic links are never followed.
#[derive(Clone, Copy, Debug, PartialEq, Eq, Structural)]
pub enum EntryKind {
    File,
    Dir,
    Symlink,
    Other,
}

/// The metadata of one entry. Its time of last modification is counted in
/// nanoseconds from the Unix epoch, and is negative before it.
#[derive(Clone, Copy, Debug)]
pub struct EntryMeta {
    pub kind: EntryKind,
    pub size: u64,
    pub mtime: i128,
    /// The owner; 0 where the platform knows none.
    pub uid: u32,
    /// The permission bits; 0 where the platform knows none.
    pub mode: u32,
    /// Whether the entry cannot be written to.
    pub readonly: bool,
}

/// One entry of a batch: its path and its metadata.
#[derive(Debug)]
pub struct Entry {
    pub path: Vec<u8>,
    pub meta: EntryMeta,
}

/// An entry, as contracts see it.
pub struct EntryView {
    pub path: Seq<u8>,
    pub meta: EntryMeta,
}

impl View for Entry {
    type V = EntryView;

    open spec fn view(&self) -> EntryView {
        EntryView { path: self.path@, meta: self.meta }
    }
}

/// The entries that a vector holds, in its order.
pub open spec fn entries_of(v: Seq<Entry>) -> Seq<EntryView> {
    Seq::new(v.len(), |i: int| v[i]@)
}

/// Cutting a vector of entries and viewing it can be done in either order.
pub proof fn lemma_entries_take(v: Seq<Entry>, n: int)
    requires
        0 <= n <= v.len(),
    ensures
        entries_of(v).take(n) == entries_of(v.take(n)),
        n < v.len() ==> entries_of(v).take(n + 1).drop_last() == entries_of(v).take(n),
        n < v.len() ==> entries_of(v).take(n + 1).last() == v[n]@,
        entries_of(v).take(v.len() as int) == entries_of(v),
{
    assert(entries_of(v).take(n) =~= entries_of(v.take(n)));
    if n < v.len() {
        assert(entries_of(v).take(n + 1).drop_last() =~= entries_of(v).take(n));
    }
    assert(entries_of(v).take(v.len() as int) =~= entries_of(v));
}

/// The age filter: an entry counts if it was modified after `newer_than`
/// and before `older_than`, as far as either is set.
#[derive(Clone, Copy, Debug)]
pub struct AgeFilter {
    pub newer_than: Option<i128>,
    pub older_than: Option<i128>,
}

impl AgeFilter {
    /// Whether an entry modified at `mtime` counts.
    pub open spec fn allows(self, mtime: i128) -> bool {
        &&& match self.newer_than {
            Some(x) => x < mtime,
            None => true,
        }
        &&& match self.older_than {
            Some(x) => x > mtime,
            None => true,
        }
    }

    /// A filter that lets every entry count.
    pub fn none() -> (r: AgeFilter)
        ensures
            r.newer_than is None,
            r.older_than is None,
    {
        AgeFilter { newer_than: None, older_than: None }
    }

    /// Whether an entry modified at `mtime` counts.
    pub fn passes(&self, mtime: i128) -> (r: bool)
        ensures
            r == self.allows(mtime),
    {
        let after = match self.newer_than {
            Some(x) => x < mtime,
            None => true,
        };
        let before = match self.older_than {
            Some(x) => x > mtime,
            None => true,
        };
        after && before
    }
}

} // verus!
