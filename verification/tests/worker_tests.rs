use parls::entry::{AgeFilter, Entry, EntryKind, EntryMeta};
use parls::filter::{parse_regex, Filters, PatternError};
use parls::path::parent;
use parls::stats::AllStats;
use parls::worker::{after_listing, after_pop, judge, scan_listing, DirChild, Verdict, WorkerAction};

const NOW: i128 = 1_700_000_000_000_000_000;
const SECOND: i128 = 1_000_000_000;

fn child(name: &str, kind: EntryKind, size: u64, mtime: i128) -> DirChild {
    DirChild { name: name.as_bytes().to_vec(), meta: EntryMeta { kind, size, mtime, uid: 1, mode: 0o644, readonly: false } }
}

fn paths(list: &Vec<Entry>) -> Vec<String> {
    list.iter().map(|e| String::from_utf8(e.path.clone()).unwrap()).collect()
}

fn strings(list: &Vec<Vec<u8>>) -> Vec<String> {
    list.iter().map(|e| String::from_utf8(e.clone()).unwrap()).collect()
}

fn with_re(re: Option<&str>, exclude_re: Option<&str>) -> Filters {
    Filters { re: re.map(|s| s.to_string()), exclude_re: exclude_re.map(|s| s.to_string()), age: AgeFilter::none() }
}

#[test]
fn files_and_directories_go_into_the_batch() {
    let children = vec![
        child("a", EntryKind::File, 100, NOW),
        child("b", EntryKind::Dir, 4096, NOW),
        child("pipe", EntryKind::Other, 0, NOW),
    ];
    let l = scan_listing(&Filters::none(), &b"root".to_vec(), &children);
    assert_eq!(paths(&l.metalist), vec!["root/a", "root/b"]);
    assert_eq!(strings(&l.other_dirs), vec!["root/b"]);
    assert_eq!(l.metalist[0].meta.size, 100);
    assert_eq!(l.metalist[1].meta.kind, EntryKind::Dir);
}

#[test]
fn a_symbolic_link_appears_nowhere() {
    let children = vec![
        child("s", EntryKind::Symlink, 4, NOW),
        child("f", EntryKind::File, 1, NOW),
    ];
    let l = scan_listing(&Filters::none(), &b"root".to_vec(), &children);
    assert_eq!(paths(&l.metalist), vec!["root/f"]);
    assert!(l.other_dirs.is_empty());
    let only_link = vec![child("s", EntryKind::Symlink, 4, NOW)];
    let h = after_listing(&Filters::none(), &b"root".to_vec(), Some(&only_link));
    assert!(h.batch.is_none());
    assert!(h.dirs.is_empty());
    let mut st = AllStats::new(b"root".to_vec(), 10, AgeFilter::none());
    st.absorb_batch(&l.metalist).unwrap();
    st.finish();
    assert_eq!(st.total_entries, 1);
    assert_eq!(st.top_files.len(), 1);
    assert_eq!(st.top_files.name_at(0), b"root/f".to_vec());
}

#[test]
fn every_entry_of_a_batch_has_the_directory_as_parent() {
    let children = vec![
        child("x", EntryKind::File, 1, NOW),
        child("y", EntryKind::Dir, 1, NOW),
        child("z.txt", EntryKind::File, 1, NOW),
        child("l", EntryKind::Symlink, 1, NOW),
    ];
    for dir in ["/r/d", "/", "", "rel"] {
        let l = scan_listing(&Filters::none(), &dir.as_bytes().to_vec(), &children);
        assert_eq!(l.metalist.len(), 3);
        for e in &l.metalist {
            assert_eq!(parent(&e.path), Some(dir.as_bytes().to_vec()));
            assert!(e.meta.kind == EntryKind::File || e.meta.kind == EntryKind::Dir);
        }
    }
    let l = scan_listing(&Filters::none(), &b"/r/d/".to_vec(), &children);
    for e in &l.metalist {
        assert_eq!(parent(&e.path), Some(b"/r/d".to_vec()));
    }
}

#[test]
fn a_name_that_is_none_is_left_out() {
    let children = vec![
        child("", EntryKind::File, 1, NOW),
        child("a/b", EntryKind::Dir, 1, NOW),
        child("ok", EntryKind::File, 1, NOW),
    ];
    let l = scan_listing(&Filters::none(), &b"/r".to_vec(), &children);
    assert_eq!(paths(&l.metalist), vec!["/r/ok"]);
    assert!(l.other_dirs.is_empty());
}

#[test]
fn a_pattern_keeps_only_matching_files() {
    let f = with_re(Some(r".*\.log$"), None);
    let root = vec![child("a", EntryKind::File, 100, NOW), child("b", EntryKind::Dir, 0, NOW)];
    let l = scan_listing(&f, &b"root".to_vec(), &root);
    assert_eq!(paths(&l.metalist), vec!["root/b"]);
    assert_eq!(strings(&l.other_dirs), vec!["root/b"]);
    let sub = vec![child("c", EntryKind::File, 50, NOW)];
    let h = after_listing(&f, &b"root/b".to_vec(), Some(&sub));
    assert!(h.batch.is_none());
    assert!(h.dirs.is_empty());
    let mut st = AllStats::new(b"root".to_vec(), 10, AgeFilter::none());
    st.absorb_batch(&l.metalist).unwrap();
    st.finish();
    assert_eq!(st.total_usage, 0);
    assert!(st.top_files.is_empty());
    assert!(st.top_dir.is_empty());
    assert!(st.top_dir_overall.is_empty());
    assert!(st.top_cnt_file.is_empty());
    assert!(st.top_cnt_overall.is_empty());
    assert!(st.top_ext.is_empty());
    assert_eq!(st.top_cnt_dir.len(), 1);
    assert_eq!(st.top_cnt_dir.score_at(0), 1);
}

#[test]
fn the_pattern_is_tried_on_the_whole_path() {
    let f = with_re(Some("^/var/log/"), None);
    let children = vec![child("syslog", EntryKind::File, 1, NOW)];
    assert_eq!(scan_listing(&f, &b"/var/log".to_vec(), &children).metalist.len(), 1);
    assert_eq!(scan_listing(&f, &b"/var/tmp".to_vec(), &children).metalist.len(), 0);
}

#[test]
fn both_patterns_together() {
    let f = with_re(Some(r"\.rs$"), Some("target"));
    assert!(f.passes(&b"/src/main.rs".to_vec(), NOW));
    assert!(!f.passes(&b"/target/main.rs".to_vec(), NOW));
    assert!(!f.passes(&b"/src/main.c".to_vec(), NOW));
    assert!(!f.passes(&b"/target/main.c".to_vec(), NOW));
    let only_exclude = with_re(None, Some(r"\.tmp$"));
    assert!(only_exclude.passes(&b"/a/b".to_vec(), NOW));
    assert!(!only_exclude.passes(&b"/a/b.tmp".to_vec(), NOW));
    assert!(Filters::none().passes(&b"anything".to_vec(), NOW));
}

#[test]
fn directories_are_not_filtered() {
    let f = Filters {
        re: Some("never-there".to_string()),
        exclude_re: Some(".*".to_string()),
        age: AgeFilter { newer_than: Some(NOW), older_than: None },
    };
    let children = vec![child("d", EntryKind::Dir, 1, NOW - SECOND), child("f", EntryKind::File, 1, NOW + SECOND)];
    let l = scan_listing(&f, &b"/r".to_vec(), &children);
    assert_eq!(paths(&l.metalist), vec!["/r/d"]);
    assert_eq!(judge(&f, &b"/r".to_vec(), &children[0]).0, Verdict::Dir);
    assert_eq!(judge(&f, &b"/r".to_vec(), &children[1]), (Verdict::Skip, b"/r/f".to_vec()));
}

#[test]
fn the_age_filter_drops_old_files() {
    let f = Filters { re: None, exclude_re: None, age: AgeFilter { newer_than: Some(NOW - 9000 * SECOND), older_than: None } };
    let children = vec![
        child("fresh", EntryKind::File, 1, NOW - 100 * SECOND),
        child("stale", EntryKind::File, 1, NOW - 10000 * SECOND),
    ];
    let l = scan_listing(&f, &b"/r".to_vec(), &children);
    assert_eq!(paths(&l.metalist), vec!["/r/fresh"]);
}

#[test]
fn a_pattern_that_is_none_matches_nothing() {
    assert!(with_re(Some("a+"), None).passes(&b"caab".to_vec(), NOW));
    assert!(!with_re(Some("a+"), None).passes(&b"cb".to_vec(), NOW));
    assert!(!with_re(Some("("), None).passes(&b"(".to_vec(), NOW));
    assert!(with_re(None, Some("(")).passes(&b"(".to_vec(), NOW));
    assert!(with_re(Some(r"\("), None).passes(&b"(".to_vec(), NOW));
    assert!(with_re(Some(""), None).passes(&b"".to_vec(), NOW));
    assert!(with_re(Some("x"), None).passes(&vec![0xff, b'x', 0xfe], NOW));
}

#[test]
fn patterns_are_checked_at_the_start() {
    assert_eq!(parse_regex(r".*\.log$"), Ok(r".*\.log$".to_string()));
    assert_eq!(parse_regex("foo(bar"), Err(PatternError::Invalid));
    assert_eq!(parse_regex("[a-"), Err(PatternError::Invalid));
    assert_eq!(parse_regex(""), Ok("".to_string()));
    assert_eq!(parse_regex(r"(?-u:\xFF)"), Err(PatternError::Invalid));
    assert_eq!(parse_regex(r"\xFF"), Ok(r"\xFF".to_string()));
}

#[test]
fn a_directory_that_cannot_be_read_gives_nothing() {
    let h = after_listing(&Filters::none(), &b"/r/locked".to_vec(), None);
    assert!(h.batch.is_none());
    assert!(h.dirs.is_empty());
    let sibling = vec![child("f", EntryKind::File, 3, NOW)];
    let h = after_listing(&Filters::none(), &b"/r/open".to_vec(), Some(&sibling));
    assert_eq!(paths(&h.batch.unwrap()), vec!["/r/open/f"]);
}

#[test]
fn an_empty_directory_gives_no_batch() {
    let h = after_listing(&Filters::none(), &b"/r/empty".to_vec(), Some(&vec![]));
    assert!(h.batch.is_none());
    assert!(h.dirs.is_empty());
}

#[test]
fn the_sentinel_ends_a_worker() {
    assert!(matches!(after_pop(None), WorkerAction::Exit));
    match after_pop(Some(b"/r".to_vec())) {
        WorkerAction::List(p) => assert_eq!(p, b"/r".to_vec()),
        WorkerAction::Exit => panic!("a directory is to be listed"),
    }
}
