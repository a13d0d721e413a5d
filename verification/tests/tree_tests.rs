use parls::dirtree::{AgeRange, DirStats, DirTree};
use parls::exttable::ExtTable;

fn p(s: &str) -> Vec<u8> {
    s.as_bytes().to_vec()
}

#[test]
fn a_new_range_has_seen_nothing() {
    let r = AgeRange::new();
    assert_eq!(r.oldest_file_direct, None);
    assert_eq!(r.oldest_file_recursive, None);
    assert_eq!(r.newest_file_direct, None);
    assert_eq!(r.newest_file_recursive, None);
}

#[test]
fn a_range_keeps_the_oldest_and_the_newest() {
    let mut r = AgeRange::new();
    r.update_direct(50);
    assert_eq!((r.oldest_file_direct, r.newest_file_direct), (Some(50), Some(50)));
    r.update_direct(70);
    r.update_direct(20);
    r.update_direct(60);
    assert_eq!((r.oldest_file_direct, r.newest_file_direct), (Some(70), Some(20)));
    assert_eq!((r.oldest_file_recursive, r.newest_file_recursive), (None, None));
    r.update_recursive(5);
    r.update_recursive(500);
    assert_eq!((r.oldest_file_recursive, r.newest_file_recursive), (Some(500), Some(5)));
    assert_eq!((r.oldest_file_direct, r.newest_file_direct), (Some(70), Some(20)));
    assert_eq!(AgeRange::min_age(None, 3), Some(3));
    assert_eq!(AgeRange::min_age(Some(2), 3), Some(2));
    assert_eq!(AgeRange::max_age(Some(2), 3), Some(3));
    assert_eq!(AgeRange::max_age(Some(4), 3), Some(4));
}

#[test]
fn new_statistics_count_nothing() {
    let s = DirStats::new();
    assert_eq!(s.size_directly, 0);
    assert_eq!(s.size_recursively, 0);
    assert_eq!(s.file_count_directly, 0);
    assert_eq!(s.file_count_recursively, 0);
    assert_eq!(s.dir_count_directly, 0);
    assert_eq!(s.dir_count_recursively, 0);
    assert_eq!(s.age_range.oldest_file_direct, None);
}

#[test]
fn records_stand_in_the_order_of_their_paths() {
    let mut t = DirTree::new();
    assert_eq!(t.len(), 0);
    assert_eq!(t.get_or_insert(&p("/r/m")), 0);
    assert_eq!(t.get_or_insert(&p("/r/a")), 0);
    assert_eq!(t.get_or_insert(&p("/r/z")), 2);
    assert_eq!(t.get_or_insert(&p("/r/m")), 1);
    assert_eq!(t.get_or_insert(&p("/r")), 0);
    assert_eq!(t.len(), 4);
    assert_eq!(t.path_at(0), &p("/r"));
    assert_eq!(t.path_at(1), &p("/r/a"));
    assert_eq!(t.path_at(2), &p("/r/m"));
    assert_eq!(t.path_at(3), &p("/r/z"));
    assert_eq!(t.find(&p("/r/m")), (true, 2));
    assert_eq!(t.find(&p("/r/b")), (false, 2));
    assert_eq!(t.find(&p("/zz")), (false, 4));
}

#[test]
fn rolling_up_by_hand() {
    let mut t = DirTree::new();
    t.ensure_chain(&p("/r"), &p("/r/a/b"));
    t.ensure_chain(&p("/r"), &p("/r/c"));
    assert_eq!(t.len(), 4);
    let (_, r) = t.find(&p("/r"));
    t.add_direct(r, 1, 1, 0);
    let (_, a) = t.find(&p("/r/a"));
    t.add_direct(a, 10, 0, 1);
    let (_, b) = t.find(&p("/r/a/b"));
    t.add_direct(b, 100, 2, 0);
    let (_, c) = t.find(&p("/r/c"));
    t.add_direct(c, 1000, 3, 3);
    t.roll_up();
    assert_eq!(t.stats_at(b).size_recursively, 100);
    assert_eq!(t.stats_at(a).size_recursively, 110);
    assert_eq!(t.stats_at(c).size_recursively, 1000);
    assert_eq!(t.stats_at(r).size_recursively, 1111);
    assert_eq!(t.stats_at(r).file_count_recursively, 6);
    assert_eq!(t.stats_at(r).dir_count_recursively, 4);
    assert_eq!(t.stats_at(r).size_directly, 1);
    t.roll_up();
    assert_eq!(t.stats_at(r).size_recursively, 1111);
}

#[test]
fn a_record_without_its_parent_keeps_its_counts() {
    let mut t = DirTree::new();
    let i = t.get_or_insert(&p("/r/a/b"));
    t.add_direct(i, 5, 1, 0);
    let j = t.get_or_insert(&p("/r"));
    t.add_direct(j, 7, 1, 0);
    t.roll_up();
    let (_, b) = t.find(&p("/r/a/b"));
    let (_, r) = t.find(&p("/r"));
    assert_eq!(t.stats_at(b).size_recursively, 5);
    assert_eq!(t.stats_at(r).size_recursively, 7);
}

#[test]
fn bytes_per_extension() {
    let mut t = ExtTable::new();
    t.credit(&p(".txt"), 5);
    t.credit(&p(".gz"), 7);
    t.credit(&p(".txt"), 1);
    t.credit(&p(".a"), 0);
    assert_eq!(t.len(), 3);
    assert_eq!(t.name_at(0), &p(".a"));
    assert_eq!(t.name_at(1), &p(".gz"));
    assert_eq!(t.name_at(2), &p(".txt"));
    assert_eq!(t.total_at(2), 6);
    assert_eq!(t.get(&p(".gz")), Some(7));
    assert_eq!(t.get(&p(".zip")), None);
}
