use parls::entry::{AgeFilter, Entry, EntryKind, EntryMeta};
use parls::record::{append, is_listed, letter_of, render_decimal, render_octal, write_meta, write_meta_header,
    write_meta_header_readonly, write_meta_readonly, RecordError};

fn entry(path: &str, kind: EntryKind, size: u64, mode: u32, uid: u32, mtime: i128) -> Entry {
    Entry { path: path.as_bytes().to_vec(), meta: EntryMeta { kind, size, mtime, uid, mode, readonly: false } }
}

fn text(v: Vec<u8>) -> String {
    String::from_utf8(v).unwrap()
}

#[test]
fn the_line_of_a_file() {
    let e = entry("/r/a.txt", EntryKind::File, 1234, 0o100644, 1000, 1_700_000_000_999_999_999);
    let line = write_meta(&e, Some(&b"alice".to_vec()), &b"|".to_vec()).unwrap();
    assert_eq!(text(line), "f|/r/a.txt|1234|100644|alice|1700000000");
}

#[test]
fn the_line_of_a_directory_without_a_known_owner() {
    let e = entry("/r/d", EntryKind::Dir, 4096, 0o40755, 65534, 0);
    let line = write_meta(&e, None, &b"\t".to_vec()).unwrap();
    assert_eq!(text(line), "d\t/r/d\t4096\t40755\t65534\t0");
}

#[test]
fn the_letters_of_the_kinds() {
    let link = entry("l", EntryKind::Symlink, 0, 0, 0, 0);
    let other = entry("o", EntryKind::Other, 0, 0, 0, 0);
    assert_eq!(text(write_meta(&link, None, &b",".to_vec()).unwrap()), "s,l,0,0,0,0");
    assert_eq!(text(write_meta(&other, None, &b"::".to_vec()).unwrap()), "N::o::0::0::0::0");
}

#[test]
fn an_entry_from_before_the_epoch_has_no_line() {
    let e = entry("/old", EntryKind::File, 1, 0o644, 0, -1);
    assert_eq!(write_meta(&e, None, &b"|".to_vec()), Err(RecordError::BeforeEpoch));
}

#[test]
fn the_header_names_the_fields() {
    assert_eq!(text(write_meta_header(&b"|".to_vec())), "type|path|size|permissions|user|epoch_last_modification");
    assert_eq!(text(write_meta_header(&b"".to_vec())), "typepathsizepermissionsuserepoch_last_modification");
}

#[test]
fn numbers_in_digits() {
    assert_eq!(text(render_decimal(0)), "0");
    assert_eq!(text(render_decimal(7)), "7");
    assert_eq!(text(render_decimal(10)), "10");
    assert_eq!(text(render_decimal(18446744073709551615)), "18446744073709551615");
    assert_eq!(text(render_decimal(u128::MAX)), "340282366920938463463374607431768211455");
    assert_eq!(text(render_octal(0)), "0");
    assert_eq!(text(render_octal(8)), "10");
    assert_eq!(text(render_octal(0o755)), "755");
    assert_eq!(text(render_octal(u32::MAX)), "37777777777");
}

#[test]
fn bytes_are_put_behind() {
    let mut out = b"ab".to_vec();
    append(&mut out, &b"cd".to_vec());
    append(&mut out, &vec![]);
    assert_eq!(out, b"abcd".to_vec());
}

#[test]
fn only_entries_that_pass_the_age_filter_are_listed() {
    let age = AgeFilter { newer_than: Some(100), older_than: Some(200) };
    assert!(is_listed(&entry("a", EntryKind::File, 1, 0, 0, 150), &age));
    assert!(!is_listed(&entry("a", EntryKind::File, 1, 0, 0, 100), &age));
    assert!(!is_listed(&entry("a", EntryKind::Dir, 1, 0, 0, 200), &age));
}

#[test]
fn the_line_where_no_owner_is_known() {
    let mut e = entry("C:/r/a.txt", EntryKind::File, 1234, 0, 0, 1_700_000_000_999_999_999);
    assert_eq!(text(write_meta_readonly(&e, &b"|".to_vec()).unwrap()), "f|C:/r/a.txt|1234|false|1700000000");
    e.meta.readonly = true;
    e.meta.kind = EntryKind::Dir;
    assert_eq!(text(write_meta_readonly(&e, &b";".to_vec()).unwrap()), "d;C:/r/a.txt;1234;true;1700000000");
    e.meta.mtime = -5;
    assert_eq!(write_meta_readonly(&e, &b"|".to_vec()), Err(RecordError::BeforeEpoch));
}

#[test]
fn the_header_where_no_owner_is_known() {
    assert_eq!(text(write_meta_header_readonly(&b"|".to_vec())), "type|path|size|readonly|epoch_last_modification");
}

#[test]
fn the_letter_of_each_kind() {
    assert_eq!(letter_of(EntryKind::File), b'f');
    assert_eq!(letter_of(EntryKind::Dir), b'd');
    assert_eq!(letter_of(EntryKind::Symlink), b's');
    assert_eq!(letter_of(EntryKind::Other), b'N');
}
