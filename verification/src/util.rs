//! The extension of a file name.
//!
//! The name of a file is the last component of its path, so no dot in the
//! name of a directory above it counts. The extension begins at a dot. Going leftwards from the end of the
//! name, a dot belongs to it if it stands at most four bytes before the
//! dot found last (or before the last byte, for the first one). So
//! `archive.tar.gz` has the extension `.tar.gz`. A dot at the very end
//! begins no extension.

use vstd::prelude::*;
use crate::path::{file_name, last_component, lemma_file_name, DOT, SEPARATOR};

verus! {

/// Where the scan ends that examines index `i` next, with the dot found
/// last at `anchor`.
pub open spec fn ext_scan(name: Seq<u8>, i: int, anchor: int) -> int
    decreases i + 1,
{
    if i < 0 || anchor - i > 4 {
        anchor
    } else if name[i] == DOT {
        ext_scan(name, i - 1, i)
    } else {
        ext_scan(name, i - 1, anchor)
    }
}

/// Index at which the extension of `name` begins; the last index, if it
/// has none.
pub open spec fn ext_start(name: Seq<u8>) -> int {
    ext_scan(name, name.len() - 1, name.len() - 1)
}

/// The extension of `name`, if it has one.
pub open spec fn multi_extension_of(name: Seq<u8>) -> Option<Seq<u8>> {
    if name.len() > 0 && ext_start(name) != name.len() - 1 {
        Some(name.skip(ext_start(name)))
    } else {
        None
    }
}

/// Whether a dot stands among the up to four bytes before index `j`, not
/// before index `lo`.
pub open spec fn dot_before(name: Seq<u8>, j: int, lo: int) -> bool {
    exists|d: int| lo <= d < j && 0 <= d && j - d <= 4 && #[trigger] name[d] == DOT
}

/// From `start` on every byte has a dot among the four bytes before it.
pub open spec fn dots_linked(name: Seq<u8>, start: int) -> bool {
    forall|j: int| start < j < name.len() ==> #[trigger] dot_before(name, j, start)
}

/// What the scan from index `i` with the dot found last at `anchor`
/// arrives at.
proof fn lemma_ext_scan(name: Seq<u8>, i: int, anchor: int)
    requires
        name.len() > 0,
        -1 <= i <= anchor < name.len(),
        0 <= anchor,
        anchor == name.len() - 1 || name[anchor] == DOT,
        forall|d: int| i < d < anchor ==> #[trigger] name[d] != DOT,
        dots_linked(name, anchor),
    ensures
        0 <= ext_scan(name, i, anchor) <= anchor,
        ext_scan(name, i, anchor) == name.len() - 1 || name[ext_scan(name, i, anchor)] == DOT,
        dots_linked(name, ext_scan(name, i, anchor)),
        !dot_before(name, ext_scan(name, i, anchor), 0),
    decreases i + 1,
{
    let r = ext_scan(name, i, anchor);
    if i < 0 || anchor - i > 4 {
        if dot_before(name, anchor, 0) {
            let d = choose|d: int| 0 <= d < anchor && 0 <= d && anchor - d <= 4 && #[trigger] name[d] == DOT;
            assert(name[d] != DOT);
        }
    } else if name[i] == DOT {
        assert forall|j: int| i < j < name.len() implies #[trigger] dot_before(name, j, i) by {
            if j > anchor {
                assert(dot_before(name, j, anchor));
                let d = choose|d: int| anchor <= d < j && 0 <= d && j - d <= 4 && #[trigger] name[d] == DOT;
                assert(i <= d < j && 0 <= d && j - d <= 4 && name[d] == DOT);
            } else {
                assert(i <= i < j && 0 <= i && j - i <= 4 && name[i] == DOT);
            }
        }
        lemma_ext_scan(name, i - 1, i);
    } else {
        lemma_ext_scan(name, i - 1, anchor);
    }
}

/// The shape of an extension: it begins at a dot before the last byte;
/// from there on every byte has a dot among the four bytes before it; and
/// no dot stands among the four bytes before its beginning. A name has no
/// extension exactly when no dot stands among the four bytes before its
/// last one.
pub proof fn law_extension_shape(name: Seq<u8>)
    ensures
        match multi_extension_of(name) {
            Some(e) => {
                let start = name.len() - e.len();
                &&& 0 <= start < name.len() - 1
                &&& e == name.skip(start)
                &&& name[start] == DOT
                &&& dots_linked(name, start)
                &&& !dot_before(name, start, 0)
            },
            None => name.len() == 0 || !dot_before(name, name.len() - 1, 0),
        },
{
    if name.len() > 0 {
        let last = name.len() - 1;
        assert(dots_linked(name, last));
        lemma_ext_scan(name, last, last);
    }
}

/// No two places in a name have the shape of an extension's beginning.
pub proof fn law_extension_unique(name: Seq<u8>, a: int, b: int)
    requires
        0 <= a < name.len(),
        0 <= b < name.len(),
        name[a] == DOT,
        name[b] == DOT,
        dots_linked(name, a),
        dots_linked(name, b),
        !dot_before(name, a, 0),
        !dot_before(name, b, 0),
    ensures
        a == b,
{
    if a < b {
        assert(dot_before(name, b, a));
        let d = choose|d: int| a <= d < b && 0 <= d && b - d <= 4 && #[trigger] name[d] == DOT;
        assert(0 <= d < b && 0 <= d && b - d <= 4 && name[d] == DOT);
    } else if b < a {
        assert(dot_before(name, a, b));
        let d = choose|d: int| b <= d < a && 0 <= d && a - d <= 4 && #[trigger] name[d] == DOT;
        assert(0 <= d < a && 0 <= d && a - d <= 4 && name[d] == DOT);
    }
}

/// Whether an extension of `name` begins at index `start`: a dot stands
/// there, before the last byte; from there on every byte has a dot among
/// the four bytes before it; and no dot stands among the four bytes
/// before `start`.
pub open spec fn is_ext_start(name: Seq<u8>, start: int) -> bool {
    &&& 0 <= start < name.len() - 1
    &&& name[start] == DOT
    &&& dots_linked(name, start)
    &&& !dot_before(name, start, 0)
}

/// The extension of the file with the path `p`: that of its name, the
/// last component of the path.
pub open spec fn extension_of(p: Seq<u8>) -> Option<Seq<u8>> {
    multi_extension_of(file_name(p))
}

/// The extension of a path is the end of the path, lies within its last
/// component and so holds no separator, and begins where that component
/// has the shape of an extension's beginning.
pub proof fn law_extension_in_file_name(p: Seq<u8>)
    ensures
        match extension_of(p) {
            Some(e) => {
                &&& e.len() <= file_name(p).len() <= p.len()
                &&& e == p.skip(p.len() - e.len())
                &&& is_ext_start(file_name(p), file_name(p).len() - e.len())
                &&& forall|i: int| 0 <= i < e.len() ==> #[trigger] e[i] != SEPARATOR
            },
            None => forall|start: int| !is_ext_start(file_name(p), start),
        },
{
    let name = file_name(p);
    lemma_file_name(p);
    law_extension_shape(name);
    match extension_of(p) {
        Some(e) => {
            let start = name.len() - e.len();
            assert(e =~= p.skip(p.len() - e.len()));
            assert forall|i: int| 0 <= i < e.len() implies #[trigger] e[i] != SEPARATOR by {
                assert(e[i] == name[start + i]);
            }
        },
        None => {
            if name.len() > 0 {
                assert forall|start: int| !is_ext_start(name, start) by {
                    if is_ext_start(name, start) {
                        let last = name.len() - 1;
                        assert(dot_before(name, last, start));
                        let d = choose|d: int| start <= d < last && 0 <= d && last - d <= 4
                            && #[trigger] name[d] == DOT;
                        assert(0 <= d < last && 0 <= d && last - d <= 4 && name[d] == DOT);
                    }
                }
            }
        },
    }
}

/// The extension of the file with the path `p`, if it has one: the end of
/// its name, the last component of the path, from the one index on that
/// has the shape of an extension's beginning. A dot in the name of a
/// directory above the file begins no extension.
pub fn multi_extension(p: &Vec<u8>) -> (r: Option<Vec<u8>>)
    ensures
        match r {
            Some(e) => extension_of(p@) == Some(e@),
            None => extension_of(p@) is None,
        },
        match r {
            Some(e) => {
                &&& e@.len() <= file_name(p@).len() <= p@.len()
                &&& e@ == p@.skip(p@.len() - e@.len())
                &&& is_ext_start(file_name(p@), file_name(p@).len() - e@.len())
                &&& forall|i: int| 0 <= i < e@.len() ==> #[trigger] e@[i] != SEPARATOR
            },
            None => forall|start: int| !is_ext_start(file_name(p@), start),
        },
{
    proof {
        law_extension_in_file_name(p@);
    }
    let name = last_component(p);
    scan_extension(&name)
}

/// The extension of the name `name`, which is taken as a whole.
fn scan_extension(name: &Vec<u8>) -> (r: Option<Vec<u8>>)
    ensures
        match r {
            Some(e) => multi_extension_of(name@) == Some(e@),
            None => multi_extension_of(name@) is None,
        },
{
    let n = name.len();
    if n == 0 {
        return None;
    }
    let mut anchor: usize = n - 1;
    let mut i: usize = n;
    while i > 0 && anchor - (i - 1) <= 4
        invariant
            n == name.len(),
            i <= n,
            anchor < n,
            i <= anchor + 1,
            ext_scan(name@, i - 1, anchor as int) == ext_start(name@),
        decreases i,
    {
        if name[i - 1] == DOT {
            anchor = i - 1;
        }
        i = i - 1;
    }
    if anchor == n - 1 {
        return None;
    }
    let mut e: Vec<u8> = Vec::new();
    let mut j: usize = anchor;
    while j < n
        invariant
            n == name.len(),
            anchor <= j <= n,
            e@ == name@.subrange(anchor as int, j as int),
        decreases n - j,
    {
        e.push(name[j]);
        proof {
            assert(e@ =~= name@.subrange(anchor as int, j + 1));
        }
        j = j + 1;
    }
    proof {
        assert(e@ =~= name@.skip(anchor as int));
    }
    Some(e)
}

} // verus!
