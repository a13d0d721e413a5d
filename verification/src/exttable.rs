//! Bytes per file extension, held in the order of the extensions.

use vstd::prelude::*;
use crate::lex::{bytes_lt, copy_bytes, find_key, keys_of, lemma_insert_key_sorted, rank_in,
    sorted_keys};

verus! {

/// The bytes counted for one extension, as contracts see it.
pub struct ExtRecord {
    pub name: Seq<u8>,
    pub total: u64,
}

/// The extensions of the records, in their order.
pub open spec fn names_of(s: Seq<ExtRecord>) -> Seq<Seq<u8>> {
    Seq::new(s.len(), |i: int| s[i].name)
}

/// Whether some record of `s` is for the extension `name`.
pub open spec fn has_name(s: Seq<ExtRecord>, name: Seq<u8>) -> bool {
    exists|i: int| 0 <= i < s.len() && (#[trigger] s[i]).name == name
}

/// The index of the record of `s` for the extension `name`.
pub open spec fn name_index(s: Seq<ExtRecord>, name: Seq<u8>) -> int {
    choose|i: int| 0 <= i < s.len() && (#[trigger] s[i]).name == name
}

/// The records `s` after `size` bytes were counted for `name`: added to
/// its record, or in a new record at its place in the order.
pub open spec fn credited(s: Seq<ExtRecord>, name: Seq<u8>, size: u64) -> Seq<ExtRecord> {
    if has_name(s, name) {
        let i = name_index(s, name);
        s.update(i, ExtRecord { name, total: (s[i].total + size) as u64 })
    } else {
        s.insert(rank_in(names_of(s), name), ExtRecord { name, total: size })
    }
}

/// No record counts more than `bound` bytes.
pub open spec fn totals_within(s: Seq<ExtRecord>, bound: int) -> bool {
    forall|i: int| 0 <= i < s.len() ==> (#[trigger] s[i]).total <= bound
}

/// Counting bytes that fit under the bound keeps every record under it.
pub proof fn lemma_credited_within(s: Seq<ExtRecord>, name: Seq<u8>, size: u64, bound: int)
    requires
        totals_within(s, bound),
        0 <= bound,
    ensures
        totals_within(credited(s, name, size), bound + size),
{
    let t = credited(s, name, size);
    if has_name(s, name) {
        let i = name_index(s, name);
        assert forall|k: int| 0 <= k < t.len() implies (#[trigger] t[k]).total <= bound + size by {
            assert(s[k].total <= bound);
            if k == i {
                if s[i].total + size > u64::MAX {
                    assert(t[k].total <= u64::MAX);
                }
            } else {
                assert(t[k] == s[k]);
            }
        }
    } else {
        let at = rank_in(names_of(s), name);
        crate::lex::lemma_rank_bounds(names_of(s), name);
        assert forall|k: int| 0 <= k < t.len() implies (#[trigger] t[k]).total <= bound + size by {
            if k < at {
                assert(t[k] == s[k]);
            } else if k > at {
                assert(t[k] == s[k - 1]);
            }
        }
    }
}

/// The table of bytes per extension.
#[derive(Debug)]
pub struct ExtTable {
    names: Vec<Vec<u8>>,
    totals: Vec<u64>,
}

impl View for ExtTable {
    type V = Seq<ExtRecord>;

    closed spec fn view(&self) -> Seq<ExtRecord> {
        Seq::new(self.names@.len(), |i: int| ExtRecord { name: self.names@[i]@, total: self.totals@[i] })
    }
}

impl ExtTable {
    /// What every table made here satisfies: its records stand in the
    /// order of their extensions.
    pub closed spec fn wf(&self) -> bool {
        &&& self.names@.len() == self.totals@.len()
        &&& sorted_keys(names_of(self@))
    }

    /// The records of a table stand in the order of their extensions.
    pub proof fn lemma_wf_sorted(&self)
        requires
            self.wf(),
        ensures
            sorted_keys(names_of(self@)),
    {
    }

    /// A table without records.
    pub fn new() -> (r: ExtTable)
        ensures
            r.wf(),
            r@ == Seq::<ExtRecord>::empty(),
    {
        let r = ExtTable { names: Vec::new(), totals: Vec::new() };
        proof {
            assert(r@ =~= Seq::<ExtRecord>::empty());
        }
        r
    }

    /// Number of records.
    pub fn len(&self) -> (r: usize)
        requires
            self.wf(),
        ensures
            r == self@.len(),
    {
        self.names.len()
    }

    /// Extension of the `i`-th record.
    pub fn name_at(&self, i: usize) -> (r: &Vec<u8>)
        requires
            self.wf(),
            i < self@.len(),
        ensures
            r@ == self@[i as int].name,
    {
        &self.names[i]
    }

    /// Bytes counted in the `i`-th record.
    pub fn total_at(&self, i: usize) -> (r: u64)
        requires
            self.wf(),
            i < self@.len(),
        ensures
            r == self@[i as int].total,
    {
        self.totals[i]
    }

    /// The bytes counted for the extension `name`, if any were.
    pub fn get(&self, name: &Vec<u8>) -> (r: Option<u64>)
        requires
            self.wf(),
        ensures
            match r {
                Some(t) => has_name(self@, name@) && t == self@[name_index(self@, name@)].total,
                None => !has_name(self@, name@),
            },
    {
        let ghost s = self@;
        proof {
            assert(keys_of(self.names@) =~= names_of(s));
        }
        let (found, idx) = find_key(&self.names, name);
        proof {
            let ks = names_of(s);
            if ks.contains(name@) {
                let j = choose|j: int| 0 <= j < ks.len() && ks[j] == name@;
                assert(s[j].name == name@);
            }
            if has_name(s, name@) {
                let j = name_index(s, name@);
                assert(ks[j] == name@);
                if found {
                    assert(ks[idx as int] == name@);
                    crate::lex::lemma_sorted_keys_distinct(ks, j, idx as int);
                }
            }
        }
        if found {
            Some(self.totals[idx])
        } else {
            None
        }
    }

    /// Counts `size` more bytes for the extension `name`.
    pub fn credit(&mut self, name: &Vec<u8>, size: u64)
        requires
            old(self).wf(),
            has_name(old(self)@, name@)
                ==> old(self)@[name_index(old(self)@, name@)].total + size <= u64::MAX,
        ensures
            final(self).wf(),
            final(self)@ == credited(old(self)@, name@, size),
    {
        let ghost s = self@;
        let ghost ks = names_of(s);
        proof {
            assert(keys_of(self.names@) =~= ks);
        }
        let (found, idx) = find_key(&self.names, name);
        proof {
            if ks.contains(name@) {
                let j = choose|j: int| 0 <= j < ks.len() && ks[j] == name@;
                assert(s[j].name == name@);
            }
            if has_name(s, name@) {
                let j = name_index(s, name@);
                assert(ks[j] == name@);
                if found {
                    assert(ks[idx as int] == name@);
                    crate::lex::lemma_sorted_keys_distinct(ks, j, idx as int);
                }
            }
        }
        if found {
            assert(s[idx as int].total + size <= u64::MAX);
            let t = self.totals[idx] + size;
            self.totals.set(idx, t);
            proof {
                let after = credited(s, name@, size);
                assert(self@ =~= after);
                assert(names_of(after) =~= ks);
            }
        } else {
            let n = copy_bytes(name);
            self.names.insert(idx, n);
            self.totals.insert(idx, size);
            proof {
                let after = credited(s, name@, size);
                assert(self@ =~= after);
                lemma_insert_key_sorted(ks, name@, idx as int);
                assert(names_of(after) =~= ks.insert(idx as int, name@));
            }
        }
    }
}

/// The bytes counted in `s` for the extension `name`, if it has a record.
pub open spec fn total_for(s: Seq<ExtRecord>, name: Seq<u8>) -> Option<u64> {
    if has_name(s, name) {
        Some(s[name_index(s, name)].total)
    } else {
        None
    }
}

/// In sorted records, the record at an index is the one that is found
/// for its extension.
pub proof fn lemma_name_index(s: Seq<ExtRecord>, i: int)
    requires
        sorted_keys(names_of(s)),
        0 <= i < s.len(),
    ensures
        has_name(s, s[i].name),
        name_index(s, s[i].name) == i,
        total_for(s, s[i].name) == Some(s[i].total),
{
    let j = name_index(s, s[i].name);
    assert(names_of(s)[i] == names_of(s)[j]);
    crate::lex::lemma_sorted_keys_distinct(names_of(s), i, j);
}

/// What counting bytes for an extension changes: the record of that
/// extension, made if there was none, and no other.
pub proof fn lemma_credited_lookup(s: Seq<ExtRecord>, name: Seq<u8>, size: u64, m: Seq<u8>)
    requires
        sorted_keys(names_of(s)),
    ensures
        sorted_keys(names_of(credited(s, name, size))),
        total_for(credited(s, name, size), m) == if m == name {
            Some(
                (match total_for(s, name) {
                    Some(t) => t + size,
                    None => size as int,
                }) as u64,
            )
        } else {
            total_for(s, m)
        },
{
    let t = credited(s, name, size);
    let ks = names_of(s);
    if has_name(s, name) {
        let i = name_index(s, name);
        assert(names_of(t) =~= ks);
        lemma_name_index(t, i);
        if m != name {
            if has_name(s, m) {
                let j = name_index(s, m);
                assert(t[j] == s[j]);
                lemma_name_index(t, j);
            } else if has_name(t, m) {
                let k = name_index(t, m);
                assert(s[k].name == m);
            }
        }
    } else {
        if ks.contains(name) {
            let j = choose|j: int| 0 <= j < ks.len() && ks[j] == name;
            assert(s[j].name == name);
        }
        crate::lex::lemma_rank_splits(ks, name);
        let at = rank_in(ks, name);
        lemma_insert_key_sorted(ks, name, at);
        assert(names_of(t) =~= ks.insert(at, name));
        assert(t[at] == ExtRecord { name, total: size });
        lemma_name_index(t, at);
        if m != name {
            if has_name(s, m) {
                let j = name_index(s, m);
                if j < at {
                    assert(t[j] == s[j]);
                    lemma_name_index(t, j);
                } else {
                    assert(t[j + 1] == s[j]);
                    lemma_name_index(t, j + 1);
                }
            } else if has_name(t, m) {
                let k = name_index(t, m);
                if k < at {
                    assert(s[k] == t[k]);
                } else if k > at {
                    assert(s[k - 1] == t[k]);
                }
            }
        }
    }
}

/// Sorted records without their first: still sorted, and what is found
/// for every extension but the first is the same.
pub proof fn lemma_skip_total(a: Seq<ExtRecord>, m: Seq<u8>)
    requires
        sorted_keys(names_of(a)),
        a.len() > 0,
    ensures
        sorted_keys(names_of(a.skip(1))),
        total_for(a.skip(1), m) == if m == a[0].name {
            None
        } else {
            total_for(a, m)
        },
{
    let t = a.skip(1);
    let ks = names_of(a);
    assert forall|i: int, j: int| 0 <= i < j < t.len()
        implies bytes_lt(#[trigger] names_of(t)[i], #[trigger] names_of(t)[j]) by {
        assert(bytes_lt(ks[i + 1], ks[j + 1]));
    }
    if has_name(t, m) {
        let k = name_index(t, m);
        assert(a[k + 1].name == m);
        lemma_name_index(a, k + 1);
        lemma_name_index(t, k);
        if m == a[0].name {
            assert(ks[0] == ks[k + 1]);
            crate::lex::lemma_sorted_keys_distinct(ks, 0, k + 1);
        }
    } else if has_name(a, m) {
        let k = name_index(a, m);
        if k > 0 {
            assert(t[k - 1].name == m);
        }
    }
}

/// Two sorted lists of records in which the same is found for every
/// extension are the same list.
pub proof fn lemma_same_totals_same_records(a: Seq<ExtRecord>, b: Seq<ExtRecord>)
    requires
        sorted_keys(names_of(a)),
        sorted_keys(names_of(b)),
        forall|m: Seq<u8>| #[trigger] total_for(a, m) == total_for(b, m),
    ensures
        a == b,
    decreases a.len(),
{
    if a.len() == 0 {
        if b.len() > 0 {
            lemma_name_index(b, 0);
            assert(total_for(a, b[0].name) == total_for(b, b[0].name));
        }
        assert(a =~= b);
    } else {
        lemma_name_index(a, 0);
        assert(total_for(a, a[0].name) == total_for(b, a[0].name));
        let j = name_index(b, a[0].name);
        lemma_name_index(b, j);
        lemma_name_index(b, 0);
        assert(total_for(a, b[0].name) == total_for(b, b[0].name));
        let i = name_index(a, b[0].name);
        lemma_name_index(a, i);
        if j > 0 {
            assert(bytes_lt(names_of(b)[0], names_of(b)[j]));
            crate::lex::lemma_lt_irreflexive(a[0].name);
            if i > 0 {
                assert(bytes_lt(names_of(a)[0], names_of(a)[i]));
                crate::lex::lemma_lt_asymmetric(a[0].name, a[i].name);
            }
        }
        assert(a[0] == b[0]);
        assert forall|m: Seq<u8>| #[trigger] total_for(a.skip(1), m) == total_for(b.skip(1), m) by {
            lemma_skip_total(a, m);
            lemma_skip_total(b, m);
            assert(total_for(a, m) == total_for(b, m));
        }
        lemma_skip_total(a, a[0].name);
        lemma_skip_total(b, a[0].name);
        lemma_same_totals_same_records(a.skip(1), b.skip(1));
        assert(a =~= seq![a[0]] + a.skip(1));
        assert(b =~= seq![b[0]] + b.skip(1));
    }
}

} // verus!
