//! What holds of the aggregation whatever the order of the batches.
//!
//! Workers hand their batches in as they come, so the order of the
//! batches differs from run to run. The tree, the bytes per extension,
//! the usage per owner and the totals do not depend on it. The ranking of
//! largest files may: of two files of equal size at its end, the one seen
//! first stays.

use vstd::prelude::*;
use crate::dirtree::{chain_member, has_path, index_of, lemma_index_of, lemma_raise_at_lookup,
    lemma_raise_keeps, lemma_with_chain_total,
    lemma_same_lookup_same_records, lemma_sum_direct_covers, lemma_with_chain_lookup, raise_at,
    raised, sorted_by_path, stats_of, total_direct, with_chain, zero_stats, DirRecord, DirStats, Measure};
use crate::path::{is_within, lemma_parent_len_bounds, lemma_within_is_prefix, parent_of};
use crate::entry::{AgeFilter, EntryView};
use crate::exttable::{has_name, lemma_credited_lookup, lemma_credited_within,
    lemma_same_totals_same_records, name_index, names_of, total_for, totals_within, ExtRecord};
use crate::lex::sorted_keys;
use crate::stats::{absorbed, absorbed_all, accepts, batch_bytes, batch_dir, counts_as_file,
    credit_user, direct_bytes, direct_dirs, direct_files, ext_of, exts_after, files_after, users_after,
    users_within, AllStats, Counts};
use crate::topn::{law_ranking_scores_in_any_order, lemma_offer_from_append, lemma_offer_from_empty,
    offer_all, offer_from, scores_of, Ranked};

verus! {

/// Number of entries of a batch that belong to the owner `u`.
pub open spec fn uid_entries(list: Seq<EntryView>, u: u32) -> nat
    decreases list.len(),
{
    if list.len() == 0 {
        0
    } else if list.last().meta.uid == u {
        uid_entries(list.drop_last(), u) + 1
    } else {
        uid_entries(list.drop_last(), u)
    }
}

/// The sizes of the entries of a batch that belong to the owner `u`.
pub open spec fn uid_bytes(list: Seq<EntryView>, u: u32) -> nat
    decreases list.len(),
{
    if list.len() == 0 {
        0
    } else if list.last().meta.uid == u {
        uid_bytes(list.drop_last(), u) + list.last().meta.size as nat
    } else {
        uid_bytes(list.drop_last(), u)
    }
}

/// Whether a file of the batch that is counted has the extension `m`.
pub open spec fn ext_seen(list: Seq<EntryView>, age: AgeFilter, m: Seq<u8>) -> bool
    decreases list.len(),
{
    if list.len() == 0 {
        false
    } else {
        ext_seen(list.drop_last(), age, m)
            || (counts_as_file(list.last(), age) && ext_of(list.last()) == Some(m))
    }
}

/// The sizes of the counted files of a batch with the extension `m`.
pub open spec fn ext_bytes(list: Seq<EntryView>, age: AgeFilter, m: Seq<u8>) -> nat
    decreases list.len(),
{
    if list.len() == 0 {
        0
    } else if counts_as_file(list.last(), age) && ext_of(list.last()) == Some(m) {
        ext_bytes(list.drop_last(), age, m) + list.last().meta.size as nat
    } else {
        ext_bytes(list.drop_last(), age, m)
    }
}

/// What is counted of a part of a batch is at most what the batch holds.
pub proof fn lemma_part_bounds(list: Seq<EntryView>, age: AgeFilter, u: u32, m: Seq<u8>)
    ensures
        uid_entries(list, u) <= list.len(),
        uid_bytes(list, u) <= batch_bytes(list),
        ext_bytes(list, age, m) <= batch_bytes(list),
        direct_bytes(list, age) <= batch_bytes(list),
        direct_files(list, age) <= list.len(),
        direct_dirs(list, age) <= list.len(),
        uid_entries(list, u) == 0 ==> uid_bytes(list, u) == 0,
    decreases list.len(),
{
    if list.len() > 0 {
        lemma_part_bounds(list.drop_last(), age, u, m);
    }
}

/// The usage of an owner before a batch; nothing, where it has none.
pub open spec fn usage_of(m: Map<u32, (u64, u64)>, u: u32) -> (u64, u64) {
    if m.contains_key(u) {
        m[u]
    } else {
        (0u64, 0u64)
    }
}

/// After a batch, an owner has a usage if it had one or the batch holds
/// an entry of it, and the usage is raised by the entries of the batch.
#[verifier::rlimit(40)]
pub proof fn lemma_users_after(m: Map<u32, (u64, u64)>, list: Seq<EntryView>, entries: int, bytes: int)
    requires
        users_within(m, entries, bytes),
        0 <= entries,
        0 <= bytes,
        entries + list.len() <= u64::MAX,
        bytes + batch_bytes(list) <= u64::MAX,
    ensures
        users_within(users_after(m, list), entries + list.len(), bytes + batch_bytes(list)),
        forall|u: u32| #[trigger] users_after(m, list).contains_key(u) <==> m.contains_key(u)
            || uid_entries(list, u) > 0,
        forall|u: u32|
            users_after(m, list).contains_key(u) ==> (#[trigger] users_after(m, list)[u]).0
                == usage_of(m, u).0
                + uid_entries(list, u) && users_after(m, list)[u].1 == usage_of(m, u).1 + uid_bytes(list, u),
    decreases list.len(),
{
    if list.len() > 0 {
        let rest = list.drop_last();
        let e = list.last();
        let prev = users_after(m, rest);
        lemma_users_after(m, rest, entries, bytes);
        let now = users_after(m, list);
        assert(now == credit_user(prev, e.meta.uid, e.meta.size));
        let uid = e.meta.uid;
        let cur = usage_of(prev, uid);
        assert forall|u: u32| now.contains_key(u) implies (#[trigger] now[u]).0 <= entries + list.len()
            && now[u].1 <= bytes
            + batch_bytes(list) && now[u].0 == usage_of(m, u).0 + uid_entries(list, u) && now[u].1
                == usage_of(m, u).1
            + uid_bytes(list, u) by {
            lemma_part_bounds(rest, AgeFilter { newer_than: None, older_than: None }, u, Seq::empty());
            assert(prev.contains_key(u) <==> m.contains_key(u) || uid_entries(rest, u) > 0);
            if u == uid {
                if prev.contains_key(u) {
                    assert(prev[u].0 <= entries + rest.len());
                    assert(prev[u].1 <= bytes + batch_bytes(rest));
                    assert(prev[u].0 == usage_of(m, u).0 + uid_entries(rest, u));
                    assert(prev[u].1 == usage_of(m, u).1 + uid_bytes(rest, u));
                }
                assert(cur.0 + 1 <= u64::MAX);
                assert(cur.1 + e.meta.size <= u64::MAX);
                assert(now[u] == ((cur.0 + 1) as u64, (cur.1 + e.meta.size) as u64));
            } else {
                assert(prev.contains_key(u));
                assert(now[u] == prev[u]);
                assert(prev[u].0 <= entries + rest.len());
                assert(prev[u].1 <= bytes + batch_bytes(rest));
                assert(prev[u].0 == usage_of(m, u).0 + uid_entries(rest, u));
                assert(prev[u].1 == usage_of(m, u).1 + uid_bytes(rest, u));
            }
        }
        assert forall|u: u32| #[trigger] now.contains_key(u) <==> m.contains_key(u)
            || uid_entries(list, u) > 0 by {
            assert(prev.contains_key(u) <==> m.contains_key(u) || uid_entries(rest, u) > 0);
        }
    }
}

/// The bytes counted for an extension before a batch; nothing, where it
/// has no record.
pub open spec fn bytes_for(s: Seq<ExtRecord>, m: Seq<u8>) -> int {
    match total_for(s, m) {
        Some(t) => t as int,
        None => 0,
    }
}

/// After a batch, an extension has a record if it had one or a counted
/// file of the batch has it, and its bytes are raised by those of the
/// files of the batch.
pub proof fn lemma_exts_after(s: Seq<ExtRecord>, list: Seq<EntryView>, age: AgeFilter, bound: int, m: Seq<u8>)
    requires
        sorted_keys(names_of(s)),
        totals_within(s, bound),
        0 <= bound,
        bound + batch_bytes(list) <= u64::MAX,
    ensures
        sorted_keys(names_of(exts_after(s, list, age))),
        totals_within(exts_after(s, list, age), bound + batch_bytes(list)),
        total_for(exts_after(s, list, age), m) is Some <==> total_for(s, m) is Some || ext_seen(list, age, m),
        bytes_for(exts_after(s, list, age), m) == bytes_for(s, m) + ext_bytes(list, age, m),
    decreases list.len(),
{
    if list.len() > 0 {
        let rest = list.drop_last();
        let e = list.last();
        let prev = exts_after(s, rest, age);
        lemma_exts_after(s, rest, age, bound, m);
        let before = bound + batch_bytes(rest);
        if counts_as_file(e, age) && ext_of(e) is Some {
            let x = ext_of(e)->0;
            lemma_credited_lookup(prev, x, e.meta.size, m);
            lemma_credited_within(prev, x, e.meta.size, before);
            if has_name(prev, x) {
                let i = name_index(prev, x);
                assert(prev[i].total <= before);
            }
        } else {
            assert forall|i: int| 0 <= i < prev.len()
                implies (#[trigger] prev[i]).total <= bound + batch_bytes(list) by {
                assert(prev[i].total <= before);
            }
        }
    }
}

/// The directories that get a record with a batch are those between the
/// root and the directory of the batch: that directory, the root, and
/// what lies on the way from one to the other.
pub proof fn law_chain_is_between(root: Seq<u8>, d: Seq<u8>, q: Seq<u8>)
    requires
        is_within(root, d),
    ensures
        chain_member(root, d, q) == (is_within(q, d) && is_within(root, q)),
    decreases d.len(),
{
    if q != d {
        if d == root {
            if is_within(q, d) && is_within(root, q) {
                lemma_within_is_prefix(q, d);
                lemma_within_is_prefix(root, q);
                assert(q.take(q.len() as int) =~= q);
            }
        } else {
            lemma_parent_len_bounds(d);
            law_chain_is_between(root, parent_of(d), q);
        }
    }
}

/// What a batch that is taken in does to the tree, directory by
/// directory: the directory of the batch has its direct counts raised by
/// what the batch counts; it and the directories above it up to the root
/// have a record, with every count at 0 if they had none; and every other
/// record is as it was.
pub proof fn law_absorbed_tree(st: AllStats, list: Seq<EntryView>, q: Seq<u8>)
    requires
        st.wf(),
        accepts(st.root@, list),
        st.total_usage + batch_bytes(list) <= u64::MAX,
        st.total_entries + list.len() <= u64::MAX,
    ensures
        ({
            let dir = batch_dir(list)->0;
            let before = stats_of(st.dtree@, q);
            let after = stats_of(absorbed(st.counts(), st.root@, st.limit as nat, st.age, list).dirs, q);
            let base = match before {
                Some(b) => b,
                None => zero_stats(),
            };
            after == if q == dir {
                Some(
                    raised(
                        base,
                        direct_bytes(list, st.age) as u64,
                        direct_files(list, st.age) as u64,
                        direct_dirs(list, st.age) as u64,
                    ),
                )
            } else if before is Some || (is_within(q, dir) && is_within(st.root@, q)) {
                Some(base)
            } else {
                None::<DirStats>
            }
        }),
{
    let dir = batch_dir(list)->0;
    let s = st.dtree@;
    st.dtree.lemma_wf_sorted();
    let chained = with_chain(s, st.root@, dir);
    lemma_with_chain_lookup(s, st.root@, dir, q);
    lemma_with_chain_lookup(s, st.root@, dir, dir);
    lemma_raise_at_lookup(
        chained,
        dir,
        direct_bytes(list, st.age) as u64,
        direct_files(list, st.age) as u64,
        direct_dirs(list, st.age) as u64,
        q,
    );
    law_chain_is_between(st.root@, dir, q);
}

/// Two raises of the direct counts of one directory can be made in
/// either order, and so can the records for two directories.
#[verifier::rlimit(40)]
pub proof fn lemma_dirs_commute(
    s: Seq<DirRecord>,
    root: Seq<u8>,
    d1: Seq<u8>,
    a1: u64,
    f1: u64,
    g1: u64,
    d2: Seq<u8>,
    a2: u64,
    f2: u64,
    g2: u64,
)
    requires
        sorted_by_path(s),
        forall|i: int| 0 <= i < s.len() ==> (#[trigger] s[i]).stats.size_directly + a1 + a2 <= u64::MAX,
        forall|i: int| 0 <= i < s.len() ==> (#[trigger] s[i]).stats.file_count_directly + f1 + f2 <= u64::MAX,
        forall|i: int| 0 <= i < s.len() ==> (#[trigger] s[i]).stats.dir_count_directly + g1 + g2 <= u64::MAX,
    ensures
        raise_at(with_chain(raise_at(with_chain(s, root, d1), d1, a1, f1, g1), root, d2), d2, a2, f2, g2)
            == raise_at(
            with_chain(raise_at(with_chain(s, root, d2), d2, a2, f2, g2), root, d1),
            d1,
            a1,
            f1,
            g1,
        ),
{
    let x1 = with_chain(s, root, d1);
    let y1 = raise_at(x1, d1, a1, f1, g1);
    let z1 = with_chain(y1, root, d2);
    let w1 = raise_at(z1, d2, a2, f2, g2);
    let x2 = with_chain(s, root, d2);
    let y2 = raise_at(x2, d2, a2, f2, g2);
    let z2 = with_chain(y2, root, d1);
    let w2 = raise_at(z2, d1, a1, f1, g1);
    lemma_with_chain_lookup(s, root, d1, d1);
    lemma_raise_at_lookup(x1, d1, a1, f1, g1, d1);
    lemma_with_chain_lookup(y1, root, d2, d2);
    lemma_raise_at_lookup(z1, d2, a2, f2, g2, d2);
    lemma_with_chain_lookup(s, root, d2, d2);
    lemma_raise_at_lookup(x2, d2, a2, f2, g2, d2);
    lemma_with_chain_lookup(y2, root, d1, d1);
    lemma_raise_at_lookup(z2, d1, a1, f1, g1, d1);
    assert forall|q: Seq<u8>| #[trigger] stats_of(w1, q) == stats_of(w2, q) by {
        lemma_with_chain_lookup(s, root, d1, q);
        lemma_raise_at_lookup(x1, d1, a1, f1, g1, q);
        lemma_with_chain_lookup(y1, root, d2, q);
        lemma_raise_at_lookup(z1, d2, a2, f2, g2, q);
        lemma_with_chain_lookup(s, root, d2, q);
        lemma_raise_at_lookup(x2, d2, a2, f2, g2, q);
        lemma_with_chain_lookup(y2, root, d1, q);
        lemma_raise_at_lookup(z2, d1, a1, f1, g1, q);
        lemma_with_chain_lookup(s, root, d1, d2);
        lemma_raise_at_lookup(x1, d1, a1, f1, g1, d2);
        lemma_with_chain_lookup(s, root, d2, d1);
        lemma_raise_at_lookup(x2, d2, a2, f2, g2, d1);
        if has_path(s, q) {
            let i = index_of(s, q);
            lemma_index_of(s, i);
            assert(s[i].stats.size_directly + a1 + a2 <= u64::MAX);
            assert(s[i].stats.file_count_directly + f1 + f2 <= u64::MAX);
            assert(s[i].stats.dir_count_directly + g1 + g2 <= u64::MAX);
        }
    }
    lemma_same_lookup_same_records(w1, w2);
}

/// The bytes per extension are the same in whichever order two batches
/// are counted.
#[verifier::rlimit(40)]
pub proof fn lemma_exts_commute(s: Seq<ExtRecord>, first: Seq<EntryView>, second: Seq<EntryView>,
    age: AgeFilter, bound: int)
    requires
        sorted_keys(names_of(s)),
        totals_within(s, bound),
        0 <= bound,
        bound + batch_bytes(first) + batch_bytes(second) <= u64::MAX,
    ensures
        exts_after(exts_after(s, first, age), second, age)
            == exts_after(exts_after(s, second, age), first, age),
{
    let none = Seq::<u8>::empty();
    let s1 = exts_after(s, first, age);
    let s2 = exts_after(s, second, age);
    let one = exts_after(s1, second, age);
    let other = exts_after(s2, first, age);
    lemma_exts_after(s, first, age, bound, none);
    lemma_exts_after(s, second, age, bound, none);
    lemma_exts_after(s1, second, age, bound + batch_bytes(first), none);
    lemma_exts_after(s2, first, age, bound + batch_bytes(second), none);
    assert forall|m: Seq<u8>| #[trigger] total_for(one, m) == total_for(other, m) by {
        lemma_exts_after(s, first, age, bound, m);
        lemma_exts_after(s, second, age, bound, m);
        lemma_exts_after(s1, second, age, bound + batch_bytes(first), m);
        lemma_exts_after(s2, first, age, bound + batch_bytes(second), m);
        assert(bytes_for(one, m) == bytes_for(other, m));
        assert(total_for(one, m) is Some <==> total_for(other, m) is Some);
    }
    lemma_same_totals_same_records(one, other);
}

/// The usage per owner is the same in whichever order two batches are
/// counted.
#[verifier::rlimit(40)]
pub proof fn lemma_users_commute(
    m: Map<u32, (u64, u64)>,
    first: Seq<EntryView>,
    second: Seq<EntryView>,
    entries: int,
    bytes: int,
)
    requires
        users_within(m, entries, bytes),
        0 <= entries,
        0 <= bytes,
        entries + first.len() + second.len() <= u64::MAX,
        bytes + batch_bytes(first) + batch_bytes(second) <= u64::MAX,
    ensures
        users_after(users_after(m, first), second) == users_after(users_after(m, second), first),
{
    let m1 = users_after(m, first);
    let m2 = users_after(m, second);
    let one = users_after(m1, second);
    let other = users_after(m2, first);
    lemma_users_after(m, first, entries, bytes);
    lemma_users_after(m, second, entries, bytes);
    lemma_users_after(m1, second, entries + first.len(), bytes + batch_bytes(first));
    lemma_users_after(m2, first, entries + second.len(), bytes + batch_bytes(second));
    assert forall|u: u32| one.contains_key(u) == other.contains_key(u) by {
        assert(m1.contains_key(u) <==> m.contains_key(u) || uid_entries(first, u) > 0);
        assert(m2.contains_key(u) <==> m.contains_key(u) || uid_entries(second, u) > 0);
        assert(one.contains_key(u) <==> m1.contains_key(u) || uid_entries(second, u) > 0);
        assert(other.contains_key(u) <==> m2.contains_key(u) || uid_entries(first, u) > 0);
    }
    assert forall|u: u32| one.contains_key(u) implies #[trigger] one[u] == other[u] by {
        assert(other.contains_key(u));
        assert(m1.contains_key(u) <==> m.contains_key(u) || uid_entries(first, u) > 0);
        assert(m2.contains_key(u) <==> m.contains_key(u) || uid_entries(second, u) > 0);
        lemma_part_bounds(first, AgeFilter { newer_than: None, older_than: None }, u, Seq::empty());
        lemma_part_bounds(second, AgeFilter { newer_than: None, older_than: None }, u, Seq::empty());
        if m1.contains_key(u) {
            assert(m1[u].0 == usage_of(m, u).0 + uid_entries(first, u));
            assert(m1[u].1 == usage_of(m, u).1 + uid_bytes(first, u));
        }
        if m2.contains_key(u) {
            assert(m2[u].0 == usage_of(m, u).0 + uid_entries(second, u));
            assert(m2[u].1 == usage_of(m, u).1 + uid_bytes(second, u));
        }
        assert(one[u].0 == usage_of(m1, u).0 + uid_entries(second, u));
        assert(one[u].1 == usage_of(m1, u).1 + uid_bytes(second, u));
        assert(other[u].0 == usage_of(m2, u).0 + uid_entries(first, u));
        assert(other[u].1 == usage_of(m2, u).1 + uid_bytes(first, u));
    }
    assert(one =~= other);
}

/// No record of a tree counts more than all records together.
pub proof fn lemma_directs_within(s: Seq<DirRecord>, i: int)
    requires
        0 <= i < s.len(),
    ensures
        s[i].stats.size_directly <= total_direct(s, Measure::Size),
        s[i].stats.file_count_directly <= total_direct(s, Measure::Files),
        s[i].stats.dir_count_directly <= total_direct(s, Measure::Dirs),
{
    lemma_sum_direct_covers(s, s.len() as int, i, Measure::Size);
    lemma_sum_direct_covers(s, s.len() as int, i, Measure::Files);
    lemma_sum_direct_covers(s, s.len() as int, i, Measure::Dirs);
}

/// The tree, the bytes per extension, the usage per owner and the totals
/// are the same in whichever order two batches are handed in, if the
/// totals of both fit in 64 bits.
pub proof fn law_batches_commute(st: AllStats, first: Seq<EntryView>, second: Seq<EntryView>)
    requires
        st.wf(),
        st.total_usage + batch_bytes(first) + batch_bytes(second) <= u64::MAX,
        st.total_entries + first.len() + second.len() <= u64::MAX,
    ensures
        ({
            let c = st.counts();
            let one = absorbed(absorbed(c, st.root@, st.limit as nat, st.age, first), st.root@,
                st.limit as nat, st.age, second);
            let other = absorbed(absorbed(c, st.root@, st.limit as nat, st.age, second), st.root@,
                st.limit as nat, st.age, first);
            &&& one.dirs == other.dirs
            &&& one.exts == other.exts
            &&& one.users == other.users
            &&& one.total_usage == other.total_usage
            &&& one.total_entries == other.total_entries
        }),
{
    let c = st.counts();
    let age = st.age;
    let none = Seq::<u8>::empty();
    lemma_part_bounds(first, age, 0, none);
    lemma_part_bounds(second, age, 0, none);
    st.dtree.lemma_wf_sorted();
    st.extensions.lemma_wf_sorted();
    assert(sorted_by_path(c.dirs));
    assert(sorted_keys(names_of(c.exts)));
    assert(totals_within(c.exts, c.total_usage as int));
    assert(users_within(c.users, c.total_entries as int, c.total_usage as int));
    assert(total_direct(c.dirs, Measure::Size) <= c.total_usage);
    assert(total_direct(c.dirs, Measure::Files) <= c.total_entries);
    assert(total_direct(c.dirs, Measure::Dirs) <= c.total_entries);
    lemma_counts_commute(c, st.root@, st.limit as nat, age, first, second);
}

/// As `law_batches_commute`, of what the batches have told alone.
pub proof fn lemma_counts_commute(
    c: Counts,
    root: Seq<u8>,
    limit: nat,
    age: AgeFilter,
    first: Seq<EntryView>,
    second: Seq<EntryView>,
)
    requires
        sorted_by_path(c.dirs),
        sorted_keys(names_of(c.exts)),
        totals_within(c.exts, c.total_usage as int),
        users_within(c.users, c.total_entries as int, c.total_usage as int),
        total_direct(c.dirs, Measure::Size) <= c.total_usage,
        total_direct(c.dirs, Measure::Files) <= c.total_entries,
        total_direct(c.dirs, Measure::Dirs) <= c.total_entries,
        c.total_usage + batch_bytes(first) + batch_bytes(second) <= u64::MAX,
        c.total_entries + first.len() + second.len() <= u64::MAX,
    ensures
        ({
            let one = absorbed(absorbed(c, root, limit, age, first), root, limit, age, second);
            let other = absorbed(absorbed(c, root, limit, age, second), root, limit, age, first);
            &&& one.dirs == other.dirs
            &&& one.exts == other.exts
            &&& one.users == other.users
            &&& one.total_usage == other.total_usage
            &&& one.total_entries == other.total_entries
        }),
{
    let none = Seq::<u8>::empty();
    lemma_part_bounds(first, age, 0, none);
    lemma_part_bounds(second, age, 0, none);
    if accepts(root, first) && accepts(root, second) {
        let s = c.dirs;
        assert forall|i: int| 0 <= i < s.len()
            implies (#[trigger] s[i]).stats.size_directly + direct_bytes(first, age)
            + direct_bytes(second, age) <= u64::MAX
                && s[i].stats.file_count_directly + direct_files(first, age)
            + direct_files(second, age) <= u64::MAX
                && s[i].stats.dir_count_directly + direct_dirs(first, age) + direct_dirs(
            second,
            age,
        ) <= u64::MAX by {
            lemma_directs_within(s, i);
        }
        lemma_dirs_commute(
            s,
            root,
            batch_dir(first)->0,
            direct_bytes(first, age) as u64,
            direct_files(first, age) as u64,
            direct_dirs(first, age) as u64,
            batch_dir(second)->0,
            direct_bytes(second, age) as u64,
            direct_files(second, age) as u64,
            direct_dirs(second, age) as u64,
        );
        lemma_exts_commute(c.exts, first, second, age, c.total_usage as int);
        lemma_users_commute(c.users, first, second, c.total_entries as int, c.total_usage as int);
    }
}

/// What the batches have told is settled by the batches and the order in
/// which they are handed in: two runs that start alike and are handed the
/// same batches end alike.
pub proof fn law_same_batches_same_counts(a: AllStats, b: AllStats, batches: Seq<Seq<EntryView>>)
    requires
        a.counts() == b.counts(),
        a.root@ == b.root@,
        a.limit == b.limit,
        a.age == b.age,
    ensures
        absorbed_all(a.counts(), a.root@, a.limit as nat, a.age, batches) == absorbed_all(
            b.counts(),
            b.root@,
            b.limit as nat,
            b.age,
            batches,
        ),
{
}

/// Two states of the counts that differ at most in the ranking of largest
/// files.
pub open spec fn same_tallies(a: Counts, b: Counts) -> bool {
    &&& a.dirs == b.dirs
    &&& a.exts == b.exts
    &&& a.users == b.users
    &&& a.total_usage == b.total_usage
    &&& a.total_entries == b.total_entries
}

/// What holds of the counts of every state: the tree and the table are
/// sorted, and nothing counts more than the totals.
pub open spec fn counts_sound(c: Counts) -> bool {
    &&& sorted_by_path(c.dirs)
    &&& sorted_keys(names_of(c.exts))
    &&& totals_within(c.exts, c.total_usage as int)
    &&& users_within(c.users, c.total_entries as int, c.total_usage as int)
    &&& total_direct(c.dirs, Measure::Size) <= c.total_usage
    &&& total_direct(c.dirs, Measure::Files) <= c.total_entries
    &&& total_direct(c.dirs, Measure::Dirs) <= c.total_entries
}

/// The sizes of all entries of all batches, summed.
pub open spec fn all_bytes(batches: Seq<Seq<EntryView>>) -> nat
    decreases batches.len(),
{
    if batches.len() == 0 {
        0
    } else {
        all_bytes(batches.drop_last()) + batch_bytes(batches.last())
    }
}

/// Number of entries of all batches.
pub open spec fn all_entries(batches: Seq<Seq<EntryView>>) -> nat
    decreases batches.len(),
{
    if batches.len() == 0 {
        0
    } else {
        all_entries(batches.drop_last()) + batches.last().len()
    }
}

/// A batch whose totals fit leaves sound counts sound, and raises the
/// totals by no more than it holds.
#[verifier::rlimit(40)]
pub proof fn lemma_absorbed_sound(c: Counts, root: Seq<u8>, limit: nat, age: AgeFilter, list: Seq<EntryView>)
    requires
        counts_sound(c),
        c.total_usage + batch_bytes(list) <= u64::MAX,
        c.total_entries + list.len() <= u64::MAX,
    ensures
        counts_sound(absorbed(c, root, limit, age, list)),
        c.total_usage <= absorbed(c, root, limit, age, list).total_usage <= c.total_usage + batch_bytes(list),
        c.total_entries <= absorbed(c, root, limit, age, list).total_entries <= c.total_entries + list.len(),
{
    if accepts(root, list) {
        let none = Seq::<u8>::empty();
        let dir = batch_dir(list)->0;
        let chained = with_chain(c.dirs, root, dir);
        let a = direct_bytes(list, age) as u64;
        let f = direct_files(list, age) as u64;
        let g = direct_dirs(list, age) as u64;
        lemma_part_bounds(list, age, 0, none);
        lemma_with_chain_lookup(c.dirs, root, dir, dir);
        lemma_with_chain_total(c.dirs, root, dir);
        let i = index_of(chained, dir);
        lemma_directs_within(chained, i);
        lemma_raise_keeps(chained, i, a, f, g, root);
        lemma_raise_at_lookup(chained, dir, a, f, g, dir);
        lemma_exts_after(c.exts, list, age, c.total_usage as int, none);
        lemma_users_after(c.users, list, c.total_entries as int, c.total_usage as int);
    }
}

/// Batches whose totals fit leave sound counts sound.
pub proof fn lemma_absorbed_all_sound(
    c: Counts,
    root: Seq<u8>,
    limit: nat,
    age: AgeFilter,
    batches: Seq<Seq<EntryView>>,
)
    requires
        counts_sound(c),
        c.total_usage + all_bytes(batches) <= u64::MAX,
        c.total_entries + all_entries(batches) <= u64::MAX,
    ensures
        counts_sound(absorbed_all(c, root, limit, age, batches)),
        absorbed_all(c, root, limit, age, batches).total_usage <= c.total_usage + all_bytes(batches),
        absorbed_all(c, root, limit, age, batches).total_entries <= c.total_entries + all_entries(batches),
    decreases batches.len(),
{
    if batches.len() > 0 {
        lemma_absorbed_all_sound(c, root, limit, age, batches.drop_last());
        lemma_absorbed_sound(absorbed_all(c, root, limit, age, batches.drop_last()), root, limit, age,
            batches.last());
    }
}

/// The batches without one of them hold what all hold, less that one.
pub proof fn lemma_all_bytes_remove(batches: Seq<Seq<EntryView>>, k: int)
    requires
        0 <= k < batches.len(),
    ensures
        all_bytes(batches) == all_bytes(batches.remove(k)) + batch_bytes(batches[k]),
        all_entries(batches) == all_entries(batches.remove(k)) + batches[k].len(),
    decreases batches.len(),
{
    if k == batches.len() - 1 {
        assert(batches.remove(k) =~= batches.drop_last());
    } else {
        lemma_all_bytes_remove(batches.drop_last(), k);
        assert(batches.remove(k).drop_last() =~= batches.drop_last().remove(k));
        assert(batches.remove(k).last() == batches.last());
    }
}

/// A batch may be handed in last instead of at its place.
pub proof fn lemma_move_to_end(
    c: Counts,
    root: Seq<u8>,
    limit: nat,
    age: AgeFilter,
    batches: Seq<Seq<EntryView>>,
    k: int,
)
    requires
        counts_sound(c),
        0 <= k < batches.len(),
        c.total_usage + all_bytes(batches) <= u64::MAX,
        c.total_entries + all_entries(batches) <= u64::MAX,
    ensures
        same_tallies(
            absorbed_all(c, root, limit, age, batches),
            absorbed(absorbed_all(c, root, limit, age, batches.remove(k)), root, limit, age, batches[k]),
        ),
    decreases batches.len(),
{
    if k == batches.len() - 1 {
        assert(batches.remove(k) =~= batches.drop_last());
    } else {
        let last = batches.last();
        let front = batches.drop_last();
        let x = batches[k];
        let rest = front.remove(k);
        assert(front[k] == x);
        lemma_move_to_end(c, root, limit, age, front, k);
        let base = absorbed_all(c, root, limit, age, rest);
        lemma_all_bytes_remove(front, k);
        lemma_absorbed_all_sound(c, root, limit, age, rest);
        lemma_counts_commute(base, root, limit, age, x, last);
        assert(batches.remove(k) =~= rest.push(last));
        assert(batches.remove(k).drop_last() =~= rest);
    }
}

/// Batches that are the same but for their order tell the same.
pub proof fn lemma_rearranged(
    c: Counts,
    root: Seq<u8>,
    limit: nat,
    age: AgeFilter,
    one: Seq<Seq<EntryView>>,
    other: Seq<Seq<EntryView>>,
)
    requires
        counts_sound(c),
        one.to_multiset() == other.to_multiset(),
        c.total_usage + all_bytes(one) <= u64::MAX,
        c.total_entries + all_entries(one) <= u64::MAX,
    ensures
        all_bytes(one) == all_bytes(other),
        all_entries(one) == all_entries(other),
        same_tallies(absorbed_all(c, root, limit, age, one), absorbed_all(c, root, limit, age, other)),
    decreases one.len(),
{
    one.to_multiset_ensures();
    other.to_multiset_ensures();
    if one.len() > 0 {
        let x = one.last();
        let front = one.drop_last();
        assert(front =~= one.remove(one.len() - 1));
        assert(one.contains(x)) by {
            assert(one[one.len() - 1] == x);
        }
        assert(one.to_multiset().count(x) > 0);
        assert(other.to_multiset().count(x) > 0);
        assert(other.contains(x));
        let k = choose|k: int| 0 <= k < other.len() && other[k] == x;
        let rest = other.remove(k);
        assert(front.to_multiset() =~= rest.to_multiset());
        lemma_rearranged(c, root, limit, age, front, rest);
        lemma_all_bytes_remove(other, k);
        lemma_move_to_end(c, root, limit, age, other, k);
    }
}

/// The tree, the bytes per extension, the usage per owner and the totals
/// do not depend on the order of the batches: two runs that are handed
/// the same batches, each as often as the other, in any two orders, tell
/// the same, if the totals of all batches fit in 64 bits.
pub proof fn law_batches_in_any_order(st: AllStats, one: Seq<Seq<EntryView>>, other: Seq<Seq<EntryView>>)
    requires
        st.wf(),
        one.to_multiset() == other.to_multiset(),
        st.total_usage + all_bytes(one) <= u64::MAX,
        st.total_entries + all_entries(one) <= u64::MAX,
    ensures
        same_tallies(
            absorbed_all(st.counts(), st.root@, st.limit as nat, st.age, one),
            absorbed_all(st.counts(), st.root@, st.limit as nat, st.age, other),
        ),
{
    st.dtree.lemma_wf_sorted();
    st.extensions.lemma_wf_sorted();
    let c = st.counts();
    assert(counts_sound(c));
    lemma_rearranged(c, st.root@, st.limit as nat, st.age, one, other);
}

/// The entries of a batch as they are offered to the ranking of largest
/// files: each path with its size.
pub open spec fn offers_of(list: Seq<EntryView>) -> Seq<Ranked> {
    Seq::new(list.len(), |i: int| Ranked { score: list[i].meta.size, name: list[i].path })
}

/// What a batch offers: its entries if it is taken in, else nothing.
pub open spec fn offers_taken(root: Seq<u8>, list: Seq<EntryView>) -> Seq<Ranked> {
    if accepts(root, list) {
        offers_of(list)
    } else {
        Seq::empty()
    }
}

/// All that the batches offer to the ranking of largest files, in their
/// order.
pub open spec fn offered(root: Seq<u8>, batches: Seq<Seq<EntryView>>) -> Seq<Ranked>
    decreases batches.len(),
{
    if batches.len() == 0 {
        Seq::empty()
    } else {
        offered(root, batches.drop_last()) + offers_taken(root, batches.last())
    }
}

/// The ranking of largest files after a batch is the ranking to which
/// the entries of the batch were offered.
pub proof fn lemma_files_after_is_offers(top: Seq<Ranked>, cap: nat, list: Seq<EntryView>)
    ensures
        files_after(top, cap, list) == offer_from(top, cap, offers_of(list)),
    decreases list.len(),
{
    if list.len() > 0 {
        lemma_files_after_is_offers(top, cap, list.drop_last());
        assert(offers_of(list).drop_last() =~= offers_of(list.drop_last()));
    }
}

/// The ranking of largest files after all batches is the ranking to
/// which all that the batches offer was offered.
pub proof fn lemma_top_files_of_all(
    c: Counts,
    root: Seq<u8>,
    limit: nat,
    age: AgeFilter,
    batches: Seq<Seq<EntryView>>,
)
    requires
        counts_sound(c),
        c.total_usage + all_bytes(batches) <= u64::MAX,
        c.total_entries + all_entries(batches) <= u64::MAX,
    ensures
        absorbed_all(c, root, limit, age, batches).top_files == offer_from(
            c.top_files,
            limit,
            offered(root, batches),
        ),
    decreases batches.len(),
{
    if batches.len() > 0 {
        let front = batches.drop_last();
        let last = batches.last();
        lemma_top_files_of_all(c, root, limit, age, front);
        lemma_absorbed_all_sound(c, root, limit, age, front);
        lemma_files_after_is_offers(absorbed_all(c, root, limit, age, front).top_files, limit, last);
        lemma_offer_from_append(c.top_files, limit, offered(root, front), offers_taken(root, last));
    }
}

/// What the batches without one of them offer is what all offer, less
/// what that one offers.
pub proof fn lemma_offered_remove(root: Seq<u8>, batches: Seq<Seq<EntryView>>, k: int)
    requires
        0 <= k < batches.len(),
    ensures
        offered(root, batches).to_multiset() == offered(root, batches.remove(k)).to_multiset().add(
            offers_taken(root, batches[k]).to_multiset(),
        ),
    decreases batches.len(),
{
    let front = batches.drop_last();
    let last = batches.last();
    vstd::seq_lib::lemma_multiset_commutative(offered(root, front), offers_taken(root, last));
    if k == batches.len() - 1 {
        assert(batches.remove(k) =~= front);
    } else {
        lemma_offered_remove(root, front, k);
        assert(batches.remove(k).drop_last() =~= front.remove(k));
        assert(batches.remove(k).last() == last);
        assert(front[k] == batches[k]);
        vstd::seq_lib::lemma_multiset_commutative(offered(root, front.remove(k)), offers_taken(root, last));
        let base = offered(root, front.remove(k)).to_multiset();
        let one = offers_taken(root, batches[k]).to_multiset();
        let two = offers_taken(root, last).to_multiset();
        assert(base.add(one).add(two) =~= base.add(two).add(one));
    }
}

/// Batches that are the same but for their order offer the same.
pub proof fn lemma_offered_rearranged(root: Seq<u8>, one: Seq<Seq<EntryView>>, other: Seq<Seq<EntryView>>)
    requires
        one.to_multiset() == other.to_multiset(),
    ensures
        offered(root, one).to_multiset() == offered(root, other).to_multiset(),
    decreases one.len(),
{
    one.to_multiset_ensures();
    other.to_multiset_ensures();
    if one.len() > 0 {
        let x = one.last();
        let front = one.drop_last();
        assert(front =~= one.remove(one.len() - 1));
        assert(one[one.len() - 1] == x);
        assert(one.contains(x));
        assert(one.to_multiset().count(x) > 0);
        assert(other.to_multiset().count(x) > 0);
        assert(other.contains(x));
        let k = choose|k: int| 0 <= k < other.len() && other[k] == x;
        assert(front.to_multiset() =~= other.remove(k).to_multiset());
        lemma_offered_rearranged(root, front, other.remove(k));
        lemma_offered_remove(root, other, k);
        vstd::seq_lib::lemma_multiset_commutative(offered(root, front), offers_taken(root, x));
    } else {
        assert(other.len() == 0);
    }
}

/// The scores of the ranking of largest files do not depend on the order
/// of the batches: in a state whose ranking came from the offers `prior`,
/// two runs that are handed the same batches in any two orders end with
/// the same scores at the same places of the ranking, if the totals of
/// all batches fit in 64 bits. The files named may differ, among files of
/// equal size only.
pub proof fn law_largest_files_in_any_order(
    st: AllStats,
    prior: Seq<Ranked>,
    one: Seq<Seq<EntryView>>,
    other: Seq<Seq<EntryView>>,
)
    requires
        st.wf(),
        st.top_files@ == offer_all(st.limit as nat, prior),
        one.to_multiset() == other.to_multiset(),
        st.total_usage + all_bytes(one) <= u64::MAX,
        st.total_entries + all_entries(one) <= u64::MAX,
    ensures
        scores_of(absorbed_all(st.counts(), st.root@, st.limit as nat, st.age, one).top_files) == scores_of(
            absorbed_all(st.counts(), st.root@, st.limit as nat, st.age, other).top_files,
        ),
{
    st.dtree.lemma_wf_sorted();
    st.extensions.lemma_wf_sorted();
    let c = st.counts();
    let root = st.root@;
    let cap = st.limit as nat;
    assert(counts_sound(c));
    lemma_rearranged(c, root, cap, st.age, one, other);
    lemma_top_files_of_all(c, root, cap, st.age, one);
    lemma_top_files_of_all(c, root, cap, st.age, other);
    lemma_offer_from_empty(cap, prior);
    lemma_offer_from_empty(cap, prior + offered(root, one));
    lemma_offer_from_empty(cap, prior + offered(root, other));
    lemma_offer_from_append(Seq::empty(), cap, prior, offered(root, one));
    lemma_offer_from_append(Seq::empty(), cap, prior, offered(root, other));
    lemma_offered_rearranged(root, one, other);
    vstd::seq_lib::lemma_multiset_commutative(prior, offered(root, one));
    vstd::seq_lib::lemma_multiset_commutative(prior, offered(root, other));
    law_ranking_scores_in_any_order(cap, prior + offered(root, one), prior + offered(root, other));
}

} // verus!
