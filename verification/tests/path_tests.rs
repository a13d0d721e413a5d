use parls::lex::{compare_bytes, copy_bytes, find_key, ByteOrder};
use parls::path::{check_entry_name, child_is_higher_than_base_dir, clean_dir, join_path, last_component, parent,
    parent_len_of_prefix, prefix, prefix_equals};
use parls::util::multi_extension;

fn b(s: &str) -> Vec<u8> {
    s.as_bytes().to_vec()
}

fn ext(name: &str) -> Option<String> {
    multi_extension(&b(name)).map(|e| String::from_utf8(e).unwrap())
}

#[test]
fn the_parent_of_a_path() {
    assert_eq!(parent(&b("/a/b/c")), Some(b("/a/b")));
    assert_eq!(parent(&b("/a")), Some(b("/")));
    assert_eq!(parent(&b("/")), None);
    assert_eq!(parent(&b("")), None);
    assert_eq!(parent(&b("name")), Some(b("")));
    assert_eq!(parent(&b("a/b")), Some(b("a")));
    assert_eq!(parent(&b("a/b/")), Some(b("a/b")));
    assert_eq!(parent(&b("a//b")), Some(b("a/")));
    assert_eq!(parent_len_of_prefix(&b("/a/b/c"), 4), 2);
    assert_eq!(prefix(&b("hello"), 2), b("he"));
    assert!(prefix_equals(&b("hello"), 2, &b("he")));
    assert!(!prefix_equals(&b("hello"), 2, &b("hx")));
    assert!(!prefix_equals(&b("hello"), 2, &b("hel")));
}

#[test]
fn what_lies_below_a_directory() {
    assert!(!child_is_higher_than_base_dir(&b("/a"), &b("/a")));
    assert!(!child_is_higher_than_base_dir(&b("/a"), &b("/a/b")));
    assert!(!child_is_higher_than_base_dir(&b("/a"), &b("/a/b/c/d")));
    assert!(child_is_higher_than_base_dir(&b("/a"), &b("/ab")));
    assert!(child_is_higher_than_base_dir(&b("/a"), &b("/")));
    assert!(child_is_higher_than_base_dir(&b("/a/b"), &b("/a")));
    assert!(child_is_higher_than_base_dir(&b("/a"), &b("/b/a")));
    assert!(!child_is_higher_than_base_dir(&b("/"), &b("/x/y")));
    assert!(!child_is_higher_than_base_dir(&b(""), &b("x/y")));
    assert!(child_is_higher_than_base_dir(&b(""), &b("/x")));
    assert!(child_is_higher_than_base_dir(&b("x"), &b("")));
}

#[test]
fn joining_a_name_to_a_directory() {
    assert_eq!(join_path(&b("/a"), &b("f")), b("/a/f"));
    assert_eq!(join_path(&b("/"), &b("f")), b("/f"));
    assert_eq!(join_path(&b(""), &b("f")), b("f"));
    assert_eq!(join_path(&b("a/"), &b("f")), b("a/f"));
    assert_eq!(parent(&join_path(&b("/a/b"), &b("f"))), Some(b("/a/b")));
    assert!(check_entry_name(&b("f.txt")));
    assert!(!check_entry_name(&b("")));
    assert!(!check_entry_name(&b("a/b")));
}

#[test]
fn separators_at_the_end_are_trimmed() {
    assert_eq!(clean_dir(&b("/a/b/")), b("/a/b"));
    assert_eq!(clean_dir(&b("/a/b///")), b("/a/b"));
    assert_eq!(clean_dir(&b("/a/b")), b("/a/b"));
    assert_eq!(clean_dir(&b("/")), b("/"));
    assert_eq!(clean_dir(&b("///")), b("/"));
    assert_eq!(clean_dir(&b("")), b(""));
}

#[test]
fn the_last_component() {
    assert_eq!(last_component(&b("/a/b/c.txt")), b("c.txt"));
    assert_eq!(last_component(&b("c.txt")), b("c.txt"));
    assert_eq!(last_component(&b("/a/")), b(""));
    assert_eq!(last_component(&b("")), b(""));
}

#[test]
fn the_extension_of_a_name() {
    assert_eq!(ext("archive.tar.gz"), Some(".tar.gz".to_string()));
    assert_eq!(ext("notes.txt"), Some(".txt".to_string()));
    assert_eq!(ext("README"), None);
    assert_eq!(ext(""), None);
    assert_eq!(ext("a.b"), Some(".b".to_string()));
    assert_eq!(ext("a."), None);
    assert_eq!(ext(".bashrc"), None);
    assert_eq!(ext(".git"), Some(".git".to_string()));
    assert_eq!(ext("x.html"), Some(".html".to_string()));
    assert_eq!(ext("x.jpeg2"), None);
    assert_eq!(ext("a.b.c.d.e"), Some(".b.c.d.e".to_string()));
    assert_eq!(ext("file.backup.gz"), Some(".gz".to_string()));
    assert_eq!(ext("a.b."), Some(".b.".to_string()));
    assert_eq!(ext("x.1234"), Some(".1234".to_string()));
    assert_eq!(ext("x.12345"), None);
}

#[test]
fn the_extension_is_that_of_the_last_component() {
    assert_eq!(ext("/a.b/c"), None);
    assert_eq!(ext("a.b/c"), None);
    assert_eq!(ext("/a.b/c.d"), Some(".d".to_string()));
    assert_eq!(ext("/x/archive.tar.gz"), Some(".tar.gz".to_string()));
    assert_eq!(ext("/a.b/"), None);
    assert_eq!(ext("/.x/y"), None);
    assert_eq!(ext("/v1.2/.b.c"), Some(".b.c".to_string()));
    assert_eq!(ext("/"), None);
}

#[test]
fn the_order_of_byte_strings() {
    assert_eq!(compare_bytes(&b("a"), &b("b")), ByteOrder::Less);
    assert_eq!(compare_bytes(&b("b"), &b("a")), ByteOrder::Greater);
    assert_eq!(compare_bytes(&b("abc"), &b("abc")), ByteOrder::Equal);
    assert_eq!(compare_bytes(&b("ab"), &b("abc")), ByteOrder::Less);
    assert_eq!(compare_bytes(&b(""), &b("a")), ByteOrder::Less);
    assert_eq!(compare_bytes(&b(""), &b("")), ByteOrder::Equal);
    assert_eq!(compare_bytes(&b("/r/d"), &b("/r/d/x")), ByteOrder::Less);
    assert_eq!(compare_bytes(&b("/r/d-"), &b("/r/d/x")), ByteOrder::Less);
    assert_eq!(compare_bytes(&vec![255u8], &vec![1u8, 2u8]), ByteOrder::Greater);
    assert_eq!(copy_bytes(&b("xyz")), b("xyz"));
}

#[test]
fn finding_a_key_among_sorted_keys() {
    let keys = vec![b("a"), b("c"), b("e"), b("g")];
    assert_eq!(find_key(&keys, &b("a")), (true, 0));
    assert_eq!(find_key(&keys, &b("e")), (true, 2));
    assert_eq!(find_key(&keys, &b("g")), (true, 3));
    assert_eq!(find_key(&keys, &b("")), (false, 0));
    assert_eq!(find_key(&keys, &b("b")), (false, 1));
    assert_eq!(find_key(&keys, &b("f")), (false, 3));
    assert_eq!(find_key(&keys, &b("z")), (false, 4));
    assert_eq!(find_key(&vec![], &b("z")), (false, 0));
}
