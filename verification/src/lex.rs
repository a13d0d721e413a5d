//! The order of paths: byte strings compared byte by byte, a proper prefix
//! before what extends it.

use vstd::prelude::*;

verus! {

/// Whether `a` comes strictly before `b`.
pub open spec fn bytes_lt(a: Seq<u8>, b: Seq<u8>) -> bool
    decreases a.len(),
{
    if b.len() == 0 {
        false
    } else if a.len() == 0 {
        true
    } else if a[0] != b[0] {
        a[0] < b[0]
    } else {
        bytes_lt(a.skip(1), b.skip(1))
    }
}

/// How one byte string stands to another.
#[derive(Clone, Copy, Debug, PartialEq, Eq, Structural)]
pub enum ByteOrder {
    Less,
    Equal,
    Greater,
}

/// Nothing comes before itself.
pub proof fn lemma_lt_irreflexive(a: Seq<u8>)
    ensures
        !bytes_lt(a, a),
    decreases a.len(),
{
    if a.len() > 0 {
        lemma_lt_irreflexive(a.skip(1));
    }
}

/// Of two byte strings at most one comes before the other.
pub proof fn lemma_lt_asymmetric(a: Seq<u8>, b: Seq<u8>)
    requires
        bytes_lt(a, b),
    ensures
        !bytes_lt(b, a),
        a != b,
    decreases a.len(),
{
    if a.len() > 0 && b.len() > 0 && a[0] == b[0] {
        lemma_lt_asymmetric(a.skip(1), b.skip(1));
    }
    lemma_lt_irreflexive(a);
}

/// Two different byte strings are ordered one way or the other.
pub proof fn lemma_lt_connected(a: Seq<u8>, b: Seq<u8>)
    requires
        a != b,
    ensures
        bytes_lt(a, b) || bytes_lt(b, a),
    decreases a.len(),
{
    if a.len() > 0 && b.len() > 0 && a[0] == b[0] {
        if a.skip(1) == b.skip(1) {
            assert(a =~= seq![a[0]] + a.skip(1));
            assert(b =~= seq![b[0]] + b.skip(1));
        }
        lemma_lt_connected(a.skip(1), b.skip(1));
    } else if a.len() == 0 && b.len() == 0 {
        assert(a =~= b);
    }
}

/// The order passes along a chain.
pub proof fn lemma_lt_transitive(a: Seq<u8>, b: Seq<u8>, c: Seq<u8>)
    requires
        bytes_lt(a, b),
        bytes_lt(b, c),
    ensures
        bytes_lt(a, c),
    decreases a.len(),
{
    if a.len() > 0 && a[0] == b[0] && b[0] == c[0] {
        lemma_lt_transitive(a.skip(1), b.skip(1), c.skip(1));
    }
}

/// A proper prefix comes before what extends it.
pub proof fn lemma_prefix_lt(a: Seq<u8>, b: Seq<u8>)
    requires
        a.len() < b.len(),
        b.take(a.len() as int) == a,
    ensures
        bytes_lt(a, b),
    decreases a.len(),
{
    if a.len() > 0 {
        assert(b.take(a.len() as int)[0] == a[0]);
        assert(b.skip(1).take(a.len() - 1) =~= a.skip(1)) by {
            assert forall|i: int| 0 <= i < a.len() - 1 implies b.skip(1).take(a.len() - 1)[i]
                == a.skip(1)[i] by {
                assert(b.take(a.len() as int)[i + 1] == a[i + 1]);
            }
        }
        lemma_prefix_lt(a.skip(1), b.skip(1));
    }
}

/// With a common first part cut off, two byte strings keep their order.
proof fn lemma_lt_skip(a: Seq<u8>, b: Seq<u8>, i: int)
    requires
        0 <= i < a.len(),
        i < b.len(),
        a[i] == b[i],
    ensures
        bytes_lt(a.skip(i), b.skip(i)) == bytes_lt(a.skip(i + 1), b.skip(i + 1)),
{
    assert(a.skip(i).skip(1) =~= a.skip(i + 1));
    assert(b.skip(i).skip(1) =~= b.skip(i + 1));
}

/// Compares two byte strings in the order of `bytes_lt`.
pub fn compare_bytes(a: &Vec<u8>, b: &Vec<u8>) -> (r: ByteOrder)
    ensures
        r == ByteOrder::Less <==> bytes_lt(a@, b@),
        r == ByteOrder::Equal <==> a@ == b@,
        r == ByteOrder::Greater <==> bytes_lt(b@, a@),
{
    let mut i: usize = 0;
    proof {
        assert(a@.skip(0) =~= a@);
        assert(b@.skip(0) =~= b@);
    }
    while i < a.len() && i < b.len()
        invariant
            i <= a.len(),
            i <= b.len(),
            forall|j: int| 0 <= j < i ==> a@[j] == b@[j],
            bytes_lt(a@, b@) == bytes_lt(a@.skip(i as int), b@.skip(i as int)),
            bytes_lt(b@, a@) == bytes_lt(b@.skip(i as int), a@.skip(i as int)),
        decreases a.len() - i,
    {
        if a[i] < b[i] {
            proof {
                lemma_lt_asymmetric(a@, b@);
            }
            return ByteOrder::Less;
        }
        if a[i] > b[i] {
            proof {
                lemma_lt_asymmetric(b@, a@);
            }
            return ByteOrder::Greater;
        }
        proof {
            lemma_lt_skip(a@, b@, i as int);
            lemma_lt_skip(b@, a@, i as int);
        }
        i = i + 1;
    }
    if i < b.len() {
        proof {
            lemma_lt_asymmetric(a@, b@);
        }
        ByteOrder::Less
    } else if i < a.len() {
        proof {
            lemma_lt_asymmetric(b@, a@);
        }
        ByteOrder::Greater
    } else {
        proof {
            assert(a@ =~= b@);
            lemma_lt_irreflexive(a@);
        }
        ByteOrder::Equal
    }
}

/// A copy of `v`.
pub fn copy_bytes(v: &Vec<u8>) -> (r: Vec<u8>)
    ensures
        r@ == v@,
{
    let mut r: Vec<u8> = Vec::with_capacity(v.len());
    let mut i: usize = 0;
    while i < v.len()
        invariant
            i <= v.len(),
            r@ == v@.take(i as int),
        decreases v.len() - i,
    {
        r.push(v[i]);
        proof {
            assert(r@ =~= v@.take(i + 1));
        }
        i = i + 1;
    }
    proof {
        assert(v@.take(v.len() as int) =~= v@);
    }
    r
}

/// The byte strings that a vector of keys holds.
pub open spec fn keys_of(v: Seq<Vec<u8>>) -> Seq<Seq<u8>> {
    Seq::new(v.len(), |i: int| v[i]@)
}

/// Keys in strict order, so that none is there twice.
pub open spec fn sorted_keys(ks: Seq<Seq<u8>>) -> bool {
    forall|i: int, j: int| 0 <= i < j < ks.len() ==> bytes_lt(#[trigger] ks[i], #[trigger] ks[j])
}

/// Number of keys of `ks` that come before `key`.
pub open spec fn rank_in(ks: Seq<Seq<u8>>, key: Seq<u8>) -> int
    decreases ks.len(),
{
    if ks.len() == 0 {
        0
    } else if bytes_lt(ks.last(), key) {
        rank_in(ks.drop_last(), key) + 1
    } else {
        rank_in(ks.drop_last(), key)
    }
}

/// The rank of a key is an index into the keys, or their number.
pub proof fn lemma_rank_bounds(ks: Seq<Seq<u8>>, key: Seq<u8>)
    ensures
        0 <= rank_in(ks, key) <= ks.len(),
    decreases ks.len(),
{
    if ks.len() > 0 {
        lemma_rank_bounds(ks.drop_last(), key);
    }
}

/// Among sorted keys, the index behind all keys before `key` and before
/// all others is the rank of `key`.
pub proof fn lemma_rank_boundary(ks: Seq<Seq<u8>>, key: Seq<u8>, idx: int)
    requires
        0 <= idx <= ks.len(),
        forall|j: int| 0 <= j < idx ==> bytes_lt(#[trigger] ks[j], key),
        forall|j: int| idx <= j < ks.len() ==> !bytes_lt(#[trigger] ks[j], key),
    ensures
        rank_in(ks, key) == idx,
    decreases ks.len(),
{
    if ks.len() > 0 {
        let w = ks.drop_last();
        if idx == ks.len() {
            assert(bytes_lt(ks[idx - 1], key));
            lemma_rank_boundary(w, key, idx - 1);
        } else {
            assert(!bytes_lt(ks[ks.len() - 1], key));
            lemma_rank_boundary(w, key, idx);
        }
    }
}

/// A key put at its rank leaves sorted keys sorted.
pub proof fn lemma_insert_key_sorted(ks: Seq<Seq<u8>>, key: Seq<u8>, idx: int)
    requires
        sorted_keys(ks),
        0 <= idx <= ks.len(),
        forall|j: int| 0 <= j < idx ==> bytes_lt(#[trigger] ks[j], key),
        forall|j: int| idx <= j < ks.len() ==> bytes_lt(key, #[trigger] ks[j]),
    ensures
        sorted_keys(ks.insert(idx, key)),
{
    let t = ks.insert(idx, key);
    assert forall|i: int, j: int| 0 <= i < j < t.len() implies bytes_lt(#[trigger] t[i], #[trigger] t[j]) by {
        if i < idx {
            assert(t[i] == ks[i]);
            if j > idx {
                assert(t[j] == ks[j - 1]);
            }
        } else if i == idx {
            assert(t[j] == ks[j - 1]);
        } else {
            assert(t[i] == ks[i - 1]);
            assert(t[j] == ks[j - 1]);
        }
    }
}

/// Among sorted keys no key stands at two indices.
pub proof fn lemma_sorted_keys_distinct(ks: Seq<Seq<u8>>, i: int, j: int)
    requires
        sorted_keys(ks),
        0 <= i < ks.len(),
        0 <= j < ks.len(),
        ks[i] == ks[j],
    ensures
        i == j,
{
    lemma_lt_irreflexive(ks[i]);
    if i < j {
        assert(bytes_lt(ks[i], ks[j]));
    } else if j < i {
        assert(bytes_lt(ks[j], ks[i]));
    }
}

/// Looks for `key` among sorted keys. Returns whether it is there, and its
/// index; or else its rank, the index at which it would stand.
pub fn find_key(keys: &Vec<Vec<u8>>, key: &Vec<u8>) -> (r: (bool, usize))
    requires
        sorted_keys(keys_of(keys@)),
    ensures
        r.1 <= keys@.len(),
        r.0 == keys_of(keys@).contains(key@),
        r.0 ==> r.1 < keys@.len() && keys@[r.1 as int]@ == key@,
        !r.0 ==> r.1 == rank_in(keys_of(keys@), key@),
        !r.0 ==> forall|j: int| 0 <= j < r.1 ==> bytes_lt(#[trigger] keys_of(keys@)[j], key@),
        !r.0 ==> forall|j: int| r.1 <= j < keys@.len() ==> bytes_lt(key@, #[trigger] keys_of(keys@)[j]),
{
    let ghost ks = keys_of(keys@);
    let mut lo: usize = 0;
    let mut hi: usize = keys.len();
    while lo < hi
        invariant
            ks == keys_of(keys@),
            sorted_keys(ks),
            lo <= hi <= keys.len(),
            forall|j: int| 0 <= j < lo ==> bytes_lt(#[trigger] ks[j], key@),
            forall|j: int| hi <= j < ks.len() ==> bytes_lt(key@, #[trigger] ks[j]),
        decreases hi - lo,
    {
        let mid = lo + (hi - lo) / 2;
        let c = compare_bytes(&keys[mid], key);
        assert(ks[mid as int] == keys@[mid as int]@);
        match c {
            ByteOrder::Equal => {
                return (true, mid);
            },
            ByteOrder::Less => {
                proof {
                    assert forall|j: int| 0 <= j < mid + 1 implies bytes_lt(#[trigger] ks[j], key@) by {
                        if j < mid {
                            assert(bytes_lt(ks[j], ks[mid as int]));
                            lemma_lt_transitive(ks[j], ks[mid as int], key@);
                        }
                    }
                }
                lo = mid + 1;
            },
            ByteOrder::Greater => {
                proof {
                    assert forall|j: int| mid <= j < ks.len() implies bytes_lt(key@, #[trigger] ks[j]) by {
                        if j > mid {
                            assert(bytes_lt(ks[mid as int], ks[j]));
                            lemma_lt_transitive(key@, ks[mid as int], ks[j]);
                        }
                    }
                }
                hi = mid;
            },
        }
    }
    proof {
        lemma_lt_irreflexive(key@);
        if ks.contains(key@) {
            let j = choose|j: int| 0 <= j < ks.len() && ks[j] == key@;
            if j < lo {
                assert(bytes_lt(ks[j], key@));
            } else {
                assert(bytes_lt(key@, ks[j]));
            }
        }
        assert forall|j: int| lo <= j < ks.len() implies !bytes_lt(#[trigger] ks[j], key@) by {
            assert(bytes_lt(key@, ks[j]));
            lemma_lt_asymmetric(key@, ks[j]);
        }
        lemma_rank_boundary(ks, key@, lo as int);
    }
    (false, lo)
}

/// Among sorted keys that do not hold `key`, those before its rank come
/// before it and the others after it.
pub proof fn lemma_rank_splits(ks: Seq<Seq<u8>>, key: Seq<u8>)
    requires
        sorted_keys(ks),
        !ks.contains(key),
    ensures
        0 <= rank_in(ks, key) <= ks.len(),
        forall|j: int| 0 <= j < rank_in(ks, key) ==> bytes_lt(#[trigger] ks[j], key),
        forall|j: int| rank_in(ks, key) <= j < ks.len() ==> bytes_lt(key, #[trigger] ks[j]),
    decreases ks.len(),
{
    if ks.len() > 0 {
        let w = ks.drop_last();
        let last = ks.last();
        assert forall|i: int, j: int| 0 <= i < j < w.len()
            implies bytes_lt(#[trigger] w[i], #[trigger] w[j]) by {
            assert(bytes_lt(ks[i], ks[j]));
        }
        if w.contains(key) {
            let j = choose|j: int| 0 <= j < w.len() && w[j] == key;
            assert(ks[j] == key);
        }
        lemma_rank_splits(w, key);
        let r = rank_in(w, key);
        assert(ks[ks.len() - 1] == last);
        assert(last != key);
        lemma_lt_connected(last, key);
        if bytes_lt(last, key) {
            assert forall|j: int| 0 <= j < ks.len() implies bytes_lt(#[trigger] ks[j], key) by {
                if j < ks.len() - 1 {
                    assert(bytes_lt(ks[j], ks[ks.len() - 1]));
                    lemma_lt_transitive(ks[j], last, key);
                }
            }
            lemma_rank_boundary(w, key, w.len() as int);
        } else {
            assert forall|j: int| 0 <= j < r implies bytes_lt(#[trigger] ks[j], key) by {
                assert(bytes_lt(w[j], key));
            }
            assert forall|j: int| r <= j < ks.len() implies bytes_lt(key, #[trigger] ks[j]) by {
                if j < w.len() {
                    assert(bytes_lt(key, w[j]));
                }
            }
        }
    }
}

} // verus!
