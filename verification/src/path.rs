//! Paths as byte strings.
//!
//! A path is the sequence of bytes of its native encoding, and two paths
//! are the same path exactly when their bytes are equal. Components are
//! divided by the separator byte `/`. The parent of a path is what stands
//! before its last separator; the parent of `/x` is `/`, and neither `/`
//! nor the empty path has a parent.

use vstd::prelude::*;

verus! {

/// The byte that divides the components of a path.
pub const SEPARATOR: u8 = 47;

/// The byte that starts an extension.
pub const DOT: u8 = 46;

/// Index of the last separator in `p`, or -1 when it holds none.
pub open spec fn last_sep(p: Seq<u8>) -> int
    decreases p.len(),
{
    if p.len() == 0 {
        -1
    } else if p.last() == SEPARATOR {
        p.len() - 1
    } else {
        last_sep(p.drop_last())
    }
}

/// Length of the parent of `p`. It equals `p.len()` where `p` has no parent.
pub open spec fn parent_len(p: Seq<u8>) -> int {
    let i = last_sep(p);
    if i < 0 {
        0
    } else if i == 0 {
        1
    } else {
        i
    }
}

/// Whether `p` has a parent: every path but the empty one and `/`.
pub open spec fn has_parent(p: Seq<u8>) -> bool {
    parent_len(p) < p.len()
}

/// The parent of `p`: `p` cut before its last separator.
pub open spec fn parent_of(p: Seq<u8>) -> Seq<u8> {
    p.take(parent_len(p))
}

/// Whether `p` is `root` or lies below it: `root` is reached from `p` by
/// taking the parent some number of times.
pub open spec fn is_within(root: Seq<u8>, p: Seq<u8>) -> bool
    decreases p.len(),
{
    p == root || (has_parent(p) && is_within(root, parent_of(p)))
}

/// A name that can stand for one entry of a directory: not empty, and
/// without a separator.
pub open spec fn is_entry_name(name: Seq<u8>) -> bool {
    name.len() > 0 && forall|i: int| 0 <= i < name.len() ==> name[i] != SEPARATOR
}

/// A directory path to which names can be joined so that it is their
/// parent: it does not end in a separator, unless it is `/` itself.
pub open spec fn is_clean_dir(dir: Seq<u8>) -> bool {
    dir.len() == 0 || dir.last() != SEPARATOR || dir.len() == 1
}

/// The path of the entry `name` in the directory `dir`.
pub open spec fn join(dir: Seq<u8>, name: Seq<u8>) -> Seq<u8> {
    if dir.len() == 0 {
        name
    } else if dir.last() == SEPARATOR {
        dir + name
    } else {
        dir + seq![SEPARATOR] + name
    }
}

/// The last component of `p`: what follows its last separator.
pub open spec fn file_name(p: Seq<u8>) -> Seq<u8> {
    p.skip(last_sep(p) + 1)
}

/// What `last_sep` finds: a separator with none after it.
pub proof fn lemma_last_sep(p: Seq<u8>)
    ensures
        -1 <= last_sep(p) < p.len(),
        last_sep(p) >= 0 ==> p[last_sep(p)] == SEPARATOR,
        forall|j: int| last_sep(p) < j < p.len() ==> p[j] != SEPARATOR,
    decreases p.len(),
{
    if p.len() > 0 && p.last() != SEPARATOR {
        let q = p.drop_last();
        lemma_last_sep(q);
        assert forall|j: int| last_sep(p) < j < p.len() implies p[j] != SEPARATOR by {
            if j < q.len() {
                assert(q[j] == p[j]);
            }
        }
    }
}

/// An index with a separator on it and none after it is what `last_sep`
/// finds.
pub proof fn lemma_last_sep_unique(p: Seq<u8>, i: int)
    requires
        -1 <= i < p.len(),
        i >= 0 ==> p[i] == SEPARATOR,
        forall|j: int| i < j < p.len() ==> p[j] != SEPARATOR,
    ensures
        last_sep(p) == i,
{
    lemma_last_sep(p);
}

/// The parent is never longer than the path.
pub proof fn lemma_parent_len_bounds(p: Seq<u8>)
    ensures
        0 <= parent_len(p) <= p.len(),
        has_parent(p) ==> parent_of(p).len() < p.len(),
{
    lemma_last_sep(p);
}

/// A path below `root` starts with `root`.
pub proof fn lemma_within_is_prefix(root: Seq<u8>, p: Seq<u8>)
    requires
        is_within(root, p),
    ensures
        root.len() <= p.len(),
        p.take(root.len() as int) == root,
    decreases p.len(),
{
    if p != root {
        lemma_parent_len_bounds(p);
        let q = parent_of(p);
        lemma_within_is_prefix(root, q);
        assert(p.take(root.len() as int) =~= q.take(root.len() as int));
    } else {
        assert(p.take(root.len() as int) =~= root);
    }
}

/// The last component of a path is its end, and holds no separator.
pub proof fn lemma_file_name(p: Seq<u8>)
    ensures
        file_name(p).len() <= p.len(),
        file_name(p) == p.skip(p.len() - file_name(p).len()),
        forall|j: int| 0 <= j < file_name(p).len() ==> #[trigger] file_name(p)[j] != SEPARATOR,
{
    lemma_last_sep(p);
    let k = last_sep(p) + 1;
    assert forall|j: int| 0 <= j < file_name(p).len() implies #[trigger] file_name(p)[j] != SEPARATOR by {
        assert(file_name(p)[j] == p[k + j]);
    }
}

/// The entries of a clean directory have that directory as their parent.
pub proof fn lemma_parent_of_join(dir: Seq<u8>, name: Seq<u8>)
    requires
        is_entry_name(name),
    ensures
        has_parent(join(dir, name)),
        is_clean_dir(dir) ==> parent_of(join(dir, name)) == dir,
        parent_of(join(dir, name)) == parent_of(join(dir, seq![0u8])),
{
    let p = join(dir, name);
    let q = join(dir, seq![0u8]);
    let one = seq![0u8];
    assert(is_entry_name(one));
    if dir.len() == 0 {
        lemma_last_sep_unique(p, -1);
        lemma_last_sep_unique(q, -1);
        assert(p.take(0) =~= dir);
        assert(q.take(0) =~= dir);
    } else if dir.last() == SEPARATOR {
        let i = dir.len() - 1;
        lemma_last_sep_unique(p, i);
        lemma_last_sep_unique(q, i);
        assert(p.take(parent_len(p)) =~= dir.take(parent_len(p)));
        assert(q.take(parent_len(q)) =~= dir.take(parent_len(q)));
        if dir.len() == 1 {
            assert(p.take(1) =~= dir);
        }
    } else {
        let i = dir.len() as int;
        lemma_last_sep_unique(p, i);
        lemma_last_sep_unique(q, i);
        assert(p.take(i) =~= dir);
        assert(q.take(i) =~= dir);
    }
}

/// Length of the parent of the first `k` bytes of `p`.
pub fn parent_len_of_prefix(p: &Vec<u8>, k: usize) -> (r: usize)
    requires
        k <= p.len(),
    ensures
        r == parent_len(p@.take(k as int)),
        r <= k,
{
    let ghost s = p@.take(k as int);
    let mut i: usize = k;
    while i > 0 && p[i - 1] != SEPARATOR
        invariant
            i <= k <= p.len(),
            s == p@.take(k as int),
            forall|j: int| i <= j < k ==> s[j] != SEPARATOR,
        decreases i,
    {
        i = i - 1;
    }
    proof {
        if i == 0 {
            lemma_last_sep_unique(s, -1);
        } else {
            lemma_last_sep_unique(s, i - 1);
        }
    }
    if i == 0 {
        0
    } else if i == 1 {
        1
    } else {
        i - 1
    }
}

/// The first `k` bytes of `p`, as a path of their own.
pub fn prefix(p: &Vec<u8>, k: usize) -> (r: Vec<u8>)
    requires
        k <= p.len(),
    ensures
        r@ == p@.take(k as int),
{
    let mut r: Vec<u8> = Vec::new();
    let mut i: usize = 0;
    while i < k
        invariant
            i <= k <= p.len(),
            r@ == p@.take(i as int),
        decreases k - i,
    {
        r.push(p[i]);
        proof {
            assert(r@ =~= p@.take(i + 1));
        }
        i = i + 1;
    }
    r
}

/// The parent of `p`, where it has one.
pub fn parent(p: &Vec<u8>) -> (r: Option<Vec<u8>>)
    ensures
        match r {
            Some(q) => has_parent(p@) && q@ == parent_of(p@),
            None => !has_parent(p@),
        },
{
    proof {
        assert(p@.take(p.len() as int) =~= p@);
    }
    let k = parent_len_of_prefix(p, p.len());
    if k < p.len() {
        Some(prefix(p, k))
    } else {
        None
    }
}

/// Whether the first `k` bytes of `p` are the bytes of `q`.
pub fn prefix_equals(p: &Vec<u8>, k: usize, q: &Vec<u8>) -> (r: bool)
    requires
        k <= p.len(),
    ensures
        r == (p@.take(k as int) == q@),
{
    if q.len() != k {
        return false;
    }
    let mut i: usize = 0;
    while i < k
        invariant
            i <= k <= p.len(),
            q.len() == k,
            forall|j: int| 0 <= j < i ==> p@[j] == q@[j],
        decreases k - i,
    {
        if p[i] != q[i] {
            proof {
                assert(p@.take(k as int)[i as int] != q@[i as int]);
            }
            return false;
        }
        i = i + 1;
    }
    proof {
        assert(p@.take(k as int) =~= q@);
    }
    true
}

/// Whether `child` lies outside `base`: true unless `child` is `base` or a
/// path below it. A batch whose directory lies outside the root is dropped.
pub fn child_is_higher_than_base_dir(base: &Vec<u8>, child: &Vec<u8>) -> (r: bool)
    ensures
        r == !is_within(base@, child@),
{
    let mut k: usize = child.len();
    proof {
        assert(child@.take(k as int) =~= child@);
    }
    loop
        invariant
            k <= child.len(),
            is_within(base@, child@) == is_within(base@, child@.take(k as int)),
        decreases k,
    {
        let ghost cur = child@.take(k as int);
        if prefix_equals(child, k, base) {
            return false;
        }
        if k < base.len() {
            proof {
                if is_within(base@, cur) {
                    lemma_within_is_prefix(base@, cur);
                }
            }
            return true;
        }
        let up = parent_len_of_prefix(child, k);
        if up == k {
            return true;
        }
        proof {
            assert(cur.take(up as int) =~= child@.take(up as int));
        }
        k = up;
    }
}

/// The path of the entry `name` in the directory `dir`.
pub fn join_path(dir: &Vec<u8>, name: &Vec<u8>) -> (r: Vec<u8>)
    ensures
        r@ == join(dir@, name@),
{
    let mut r: Vec<u8> = Vec::new();
    let mut i: usize = 0;
    while i < dir.len()
        invariant
            i <= dir.len(),
            r@ == dir@.take(i as int),
        decreases dir.len() - i,
    {
        r.push(dir[i]);
        proof {
            assert(r@ =~= dir@.take(i + 1));
        }
        i = i + 1;
    }
    proof {
        assert(dir@.take(dir.len() as int) =~= dir@);
    }
    if dir.len() > 0 && dir[dir.len() - 1] != SEPARATOR {
        r.push(SEPARATOR);
    }
    let ghost head = r@;
    let mut j: usize = 0;
    while j < name.len()
        invariant
            j <= name.len(),
            r@ == head + name@.take(j as int),
        decreases name.len() - j,
    {
        r.push(name[j]);
        proof {
            assert(r@ =~= head + name@.take(j + 1));
        }
        j = j + 1;
    }
    proof {
        assert(name@.take(name.len() as int) =~= name@);
        assert(r@ =~= join(dir@, name@));
    }
    r
}

/// Whether `name` can stand for one entry of a directory.
pub fn check_entry_name(name: &Vec<u8>) -> (r: bool)
    ensures
        r == is_entry_name(name@),
{
    if name.len() == 0 {
        return false;
    }
    let mut i: usize = 0;
    while i < name.len()
        invariant
            i <= name.len(),
            forall|j: int| 0 <= j < i ==> name@[j] != SEPARATOR,
        decreases name.len() - i,
    {
        if name[i] == SEPARATOR {
            return false;
        }
        i = i + 1;
    }
    true
}

/// The last component of `p`.
pub fn last_component(p: &Vec<u8>) -> (r: Vec<u8>)
    ensures
        r@ == file_name(p@),
{
    let mut i: usize = p.len();
    while i > 0 && p[i - 1] != SEPARATOR
        invariant
            i <= p.len(),
            forall|j: int| i <= j < p.len() ==> p@[j] != SEPARATOR,
        decreases i,
    {
        i = i - 1;
    }
    proof {
        lemma_last_sep_unique(p@, i - 1);
    }
    let mut r: Vec<u8> = Vec::new();
    let mut j: usize = i;
    while j < p.len()
        invariant
            i <= j <= p.len(),
            r@ == p@.subrange(i as int, j as int),
        decreases p.len() - j,
    {
        r.push(p[j]);
        proof {
            assert(r@ =~= p@.subrange(i as int, j + 1));
        }
        j = j + 1;
    }
    proof {
        assert(r@ =~= p@.skip(i as int));
    }
    r
}

/// `p` without the separators at its end; of a path made of separators
/// alone, one is left.
pub open spec fn trimmed(p: Seq<u8>) -> Seq<u8>
    decreases p.len(),
{
    if p.len() > 1 && p.last() == SEPARATOR {
        trimmed(p.drop_last())
    } else {
        p
    }
}

/// A trimmed path is clean.
pub proof fn lemma_trimmed_clean(p: Seq<u8>)
    ensures
        is_clean_dir(trimmed(p)),
        trimmed(trimmed(p)) == trimmed(p),
    decreases p.len(),
{
    if p.len() > 1 && p.last() == SEPARATOR {
        lemma_trimmed_clean(p.drop_last());
    }
}

/// The path `p` without the separators at its end, so that the entries
/// of the directory have it as their parent.
pub fn clean_dir(p: &Vec<u8>) -> (r: Vec<u8>)
    ensures
        r@ == trimmed(p@),
        is_clean_dir(r@),
{
    let mut k: usize = p.len();
    proof {
        assert(p@.take(k as int) =~= p@);
    }
    while k > 1 && p[k - 1] == SEPARATOR
        invariant
            k <= p.len(),
            trimmed(p@) == trimmed(p@.take(k as int)),
        decreases k,
    {
        proof {
            assert(p@.take(k as int).drop_last() =~= p@.take(k - 1));
        }
        k = k - 1;
    }
    proof {
        lemma_trimmed_clean(p@);
    }
    prefix(p, k)
}

} // verus!
