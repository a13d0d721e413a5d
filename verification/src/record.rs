//! The list of files: one line for each entry, its fields divided by the
//! delimiter.
//!
//! The fields are the type of the entry, its path, its size in bytes, its
//! permission bits in octal, its owner, and its time of modification in
//! seconds from the Unix epoch. Where the platform knows no owners and
//! permission bits, one field stands for both: whether the entry is
//! read-only. Lines are byte strings, and the path stands in them as it
//! is.

use vstd::prelude::*;
use crate::duration::NANOS_PER_SECOND;
use crate::entry::{Entry, EntryKind, EntryView};

verus! {

/// Why an entry has no line.
#[derive(Debug, Clone, Copy, PartialEq, Eq, Structural)]
pub enum RecordError {
    /// The entry was modified before the Unix epoch.
    BeforeEpoch,
}

/// The decimal digits of `n`, the highest first.
pub open spec fn decimal(n: nat) -> Seq<u8>
    decreases n,
{
    if n < 10 {
        seq![(48 + n) as u8]
    } else {
        decimal(n / 10).push((48 + n % 10) as u8)
    }
}

/// The octal digits of `n`, the highest first.
pub open spec fn octal(n: nat) -> Seq<u8>
    decreases n,
{
    if n < 8 {
        seq![(48 + n) as u8]
    } else {
        octal(n / 8).push((48 + n % 8) as u8)
    }
}

/// The letter that stands for a kind of entry: `f` for a file, `d` for a
/// directory, `s` for a symbolic link, `N` for anything else.
pub open spec fn type_letter(kind: EntryKind) -> u8 {
    match kind {
        EntryKind::File => 102u8,
        EntryKind::Dir => 100u8,
        EntryKind::Symlink => 115u8,
        EntryKind::Other => 78u8,
    }
}

/// The owner as it stands in a line: the name, or the number where no
/// name is known.
pub open spec fn owner_field(uid: u32, name: Option<Seq<u8>>) -> Seq<u8> {
    match name {
        Some(n) => n,
        None => decimal(uid as nat),
    }
}

/// The line of the entry `e`.
pub open spec fn record_of(e: EntryView, name: Option<Seq<u8>>, delim: Seq<u8>) -> Seq<u8> {
    seq![type_letter(e.meta.kind)] + delim + e.path + delim + decimal(e.meta.size as nat) + delim + octal(
        e.meta.mode as nat,
    ) + delim + owner_field(e.meta.uid, name) + delim + decimal((e.meta.mtime / NANOS_PER_SECOND) as nat)
}

/// The word `type`.
pub open spec fn word_type() -> Seq<u8> {
    seq![116u8, 121u8, 112u8, 101u8]
}

/// The word `path`.
pub open spec fn word_path() -> Seq<u8> {
    seq![112u8, 97u8, 116u8, 104u8]
}

/// The word `size`.
pub open spec fn word_size() -> Seq<u8> {
    seq![115u8, 105u8, 122u8, 101u8]
}

/// The word `permissions`.
pub open spec fn word_permissions() -> Seq<u8> {
    seq![112u8, 101u8, 114u8, 109u8, 105u8, 115u8, 115u8, 105u8, 111u8, 110u8, 115u8]
}

/// The word `user`.
pub open spec fn word_user() -> Seq<u8> {
    seq![117u8, 115u8, 101u8, 114u8]
}

/// The word `epoch_last_modification`.
pub open spec fn word_epoch() -> Seq<u8> {
    seq![
        101u8,
        112u8,
        111u8,
        99u8,
        104u8,
        95u8,
        108u8,
        97u8,
        115u8,
        116u8,
        95u8,
        109u8,
        111u8,
        100u8,
        105u8,
        102u8,
        105u8,
        99u8,
        97u8,
        116u8,
        105u8,
        111u8,
        110u8,
    ]
}

/// The line that names the fields.
pub open spec fn header_of(delim: Seq<u8>) -> Seq<u8> {
    word_type() + delim + word_path() + delim + word_size() + delim + word_permissions() + delim + word_user()
        + delim + word_epoch()
}

/// The word `readonly`.
pub open spec fn word_readonly() -> Seq<u8> {
    seq![114u8, 101u8, 97u8, 100u8, 111u8, 110u8, 108u8, 121u8]
}

/// The word `true`, or the word `false`.
pub open spec fn word_of(b: bool) -> Seq<u8> {
    if b {
        seq![116u8, 114u8, 117u8, 101u8]
    } else {
        seq![102u8, 97u8, 108u8, 115u8, 101u8]
    }
}

/// The line of the entry `e` where owners and permission bits are not
/// known.
pub open spec fn readonly_record_of(e: EntryView, delim: Seq<u8>) -> Seq<u8> {
    seq![type_letter(e.meta.kind)] + delim + e.path + delim + decimal(e.meta.size as nat) + delim + word_of(
        e.meta.readonly,
    ) + delim + decimal((e.meta.mtime / NANOS_PER_SECOND) as nat)
}

/// The line that names the fields where owners and permission bits are
/// not known.
pub open spec fn readonly_header_of(delim: Seq<u8>) -> Seq<u8> {
    word_type() + delim + word_path() + delim + word_size() + delim + word_readonly() + delim + word_epoch()
}

/// Puts the bytes of `tail` behind those of `out`.
pub fn append(out: &mut Vec<u8>, tail: &Vec<u8>)
    ensures
        final(out)@ == old(out)@ + tail@,
{
    let ghost start = out@;
    let mut i: usize = 0;
    while i < tail.len()
        invariant
            i <= tail.len(),
            out@ == start + tail@.take(i as int),
        decreases tail.len() - i,
    {
        out.push(tail[i]);
        proof {
            assert(out@ =~= start + tail@.take(i + 1));
        }
        i = i + 1;
    }
    proof {
        assert(tail@.take(tail.len() as int) =~= tail@);
    }
}

/// The decimal digits of `n`, the highest first.
pub fn render_decimal(n: u128) -> (r: Vec<u8>)
    ensures
        r@ == decimal(n as nat),
{
    let mut out: Vec<u8> = Vec::new();
    out.push((48 + n % 10) as u8);
    let mut m: u128 = n / 10;
    while m > 0
        invariant
            m > 0 ==> decimal(n as nat) == decimal(m as nat) + out@,
            m == 0 ==> decimal(n as nat) == out@,
        decreases m,
    {
        let ghost before = out@;
        out.insert(0, (48 + m % 10) as u8);
        proof {
            assert(out@ =~= seq![(48 + m % 10) as u8] + before);
            if m < 10 {
                assert(decimal(m as nat) + before =~= out@);
            } else {
                assert(decimal(m as nat) + before =~= decimal((m / 10) as nat) + out@);
            }
        }
        m = m / 10;
    }
    out
}

/// The octal digits of `n`, the highest first.
pub fn render_octal(n: u32) -> (r: Vec<u8>)
    ensures
        r@ == octal(n as nat),
{
    let mut out: Vec<u8> = Vec::new();
    out.push((48 + n % 8) as u8);
    let mut m: u32 = n / 8;
    while m > 0
        invariant
            m > 0 ==> octal(n as nat) == octal(m as nat) + out@,
            m == 0 ==> octal(n as nat) == out@,
        decreases m,
    {
        let ghost before = out@;
        out.insert(0, (48 + m % 8) as u8);
        proof {
            assert(out@ =~= seq![(48 + m % 8) as u8] + before);
            if m < 8 {
                assert(octal(m as nat) + before =~= out@);
            } else {
                assert(octal(m as nat) + before =~= octal((m / 8) as nat) + out@);
            }
        }
        m = m / 8;
    }
    out
}

/// The line of the entry `e` for the list of files. `name` is the name of
/// its owner where one is known. An entry modified before the Unix epoch
/// has no line.
pub fn write_meta(e: &Entry, name: Option<&Vec<u8>>, delimiter: &Vec<u8>) -> (r: Result<Vec<u8>, RecordError>)
    ensures
        match r {
            Ok(line) => e.meta.mtime >= 0 && line@ == record_of(
                e@,
                match name {
                    Some(n) => Some(n@),
                    None => None,
                },
                delimiter@,
            ),
            Err(err) => e.meta.mtime < 0 && err == RecordError::BeforeEpoch,
        },
{
    if e.meta.mtime < 0 {
        return Err(RecordError::BeforeEpoch);
    }
    let secs: i128 = e.meta.mtime / NANOS_PER_SECOND;
    let mut out: Vec<u8> = Vec::new();
    out.push(letter_of(e.meta.kind));
    append(&mut out, delimiter);
    append(&mut out, &e.path);
    append(&mut out, delimiter);
    append(&mut out, &render_decimal(e.meta.size as u128));
    append(&mut out, delimiter);
    append(&mut out, &render_octal(e.meta.mode));
    append(&mut out, delimiter);
    match name {
        Some(n) => {
            append(&mut out, n);
        },
        None => {
            append(&mut out, &render_decimal(e.meta.uid as u128));
        },
    }
    append(&mut out, delimiter);
    append(&mut out, &render_decimal(secs as u128));
    Ok(out)
}

/// The line that names the fields of the list of files.
pub fn write_meta_header(delimiter: &Vec<u8>) -> (r: Vec<u8>)
    ensures
        r@ == header_of(delimiter@),
{
    let mut out: Vec<u8> = vec![116u8, 121u8, 112u8, 101u8];
    append(&mut out, delimiter);
    append(&mut out, &vec![112u8, 97u8, 116u8, 104u8]);
    append(&mut out, delimiter);
    append(&mut out, &vec![115u8, 105u8, 122u8, 101u8]);
    append(&mut out, delimiter);
    append(&mut out, &vec![112u8, 101u8, 114u8, 109u8, 105u8, 115u8, 115u8, 105u8, 111u8, 110u8, 115u8]);
    append(&mut out, delimiter);
    append(&mut out, &vec![117u8, 115u8, 101u8, 114u8]);
    append(&mut out, delimiter);
    append(
        &mut out,
        &vec![
            101u8,
            112u8,
            111u8,
            99u8,
            104u8,
            95u8,
            108u8,
            97u8,
            115u8,
            116u8,
            95u8,
            109u8,
            111u8,
            100u8,
            105u8,
            102u8,
            105u8,
            99u8,
            97u8,
            116u8,
            105u8,
            111u8,
            110u8,
        ],
    );
    out
}

/// The letter that stands for the kind of an entry.
pub fn letter_of(kind: EntryKind) -> (r: u8)
    ensures
        r == type_letter(kind),
{
    match kind {
        EntryKind::File => 102,
        EntryKind::Dir => 100,
        EntryKind::Symlink => 115,
        EntryKind::Other => 78,
    }
}

/// The line of the entry `e` for the list of files, where owners and
/// permission bits are not known: in their place stands whether the
/// entry is read-only. An entry modified before the Unix epoch has no
/// line.
pub fn write_meta_readonly(e: &Entry, delimiter: &Vec<u8>) -> (r: Result<Vec<u8>, RecordError>)
    ensures
        match r {
            Ok(line) => e.meta.mtime >= 0 && line@ == readonly_record_of(e@, delimiter@),
            Err(err) => e.meta.mtime < 0 && err == RecordError::BeforeEpoch,
        },
{
    if e.meta.mtime < 0 {
        return Err(RecordError::BeforeEpoch);
    }
    let secs: i128 = e.meta.mtime / NANOS_PER_SECOND;
    let mut out: Vec<u8> = Vec::new();
    out.push(letter_of(e.meta.kind));
    append(&mut out, delimiter);
    append(&mut out, &e.path);
    append(&mut out, delimiter);
    append(&mut out, &render_decimal(e.meta.size as u128));
    append(&mut out, delimiter);
    if e.meta.readonly {
        append(&mut out, &vec![116u8, 114u8, 117u8, 101u8]);
    } else {
        append(&mut out, &vec![102u8, 97u8, 108u8, 115u8, 101u8]);
    }
    append(&mut out, delimiter);
    append(&mut out, &render_decimal(secs as u128));
    Ok(out)
}

/// The line that names the fields of the list of files, where owners and
/// permission bits are not known.
pub fn write_meta_header_readonly(delimiter: &Vec<u8>) -> (r: Vec<u8>)
    ensures
        r@ == readonly_header_of(delimiter@),
{
    let mut out: Vec<u8> = vec![116u8, 121u8, 112u8, 101u8];
    append(&mut out, delimiter);
    append(&mut out, &vec![112u8, 97u8, 116u8, 104u8]);
    append(&mut out, delimiter);
    append(&mut out, &vec![115u8, 105u8, 122u8, 101u8]);
    append(&mut out, delimiter);
    append(&mut out, &vec![114u8, 101u8, 97u8, 100u8, 111u8, 110u8, 108u8, 121u8]);
    append(&mut out, delimiter);
    append(
        &mut out,
        &vec![
            101u8,
            112u8,
            111u8,
            99u8,
            104u8,
            95u8,
            108u8,
            97u8,
            115u8,
            116u8,
            95u8,
            109u8,
            111u8,
            100u8,
            105u8,
            102u8,
            105u8,
            99u8,
            97u8,
            116u8,
            105u8,
            111u8,
            110u8,
        ],
    );
    out
}

/// Whether the entry `e` is listed: it is, if its time of modification
/// passes the age filter.
pub fn is_listed(e: &Entry, age: &crate::entry::AgeFilter) -> (r: bool)
    ensures
        r == age.allows(e.meta.mtime),
{
    age.passes(e.meta.mtime)
}

} // verus!
