use parls::dirtree::DirStats;
use parls::entry::{AgeFilter, Entry, EntryKind, EntryMeta};
use parls::stats::{batch_total, rank_dirs, AllStats, DirScore, StatsError};
use parls::topn::TopN;

const NOW: i128 = 1_700_000_000_000_000_000;
const SECOND: i128 = 1_000_000_000;

fn file(path: &str, size: u64, uid: u32, mtime: i128) -> Entry {
    Entry { path: path.as_bytes().to_vec(), meta: EntryMeta { kind: EntryKind::File, size, mtime, uid, mode: 0o644, readonly: false } }
}

fn dir(path: &str, size: u64, uid: u32, mtime: i128) -> Entry {
    Entry { path: path.as_bytes().to_vec(), meta: EntryMeta { kind: EntryKind::Dir, size, mtime, uid, mode: 0o755, readonly: false } }
}

fn fresh(root: &str, limit: usize) -> AllStats {
    AllStats::new(root.as_bytes().to_vec(), limit, AgeFilter::none())
}

fn stats_of(st: &AllStats, path: &str) -> DirStats {
    st.dir_stats(&path.as_bytes().to_vec()).unwrap()
}

fn ranking(top: &TopN) -> Vec<(u64, String)> {
    let mut v = Vec::new();
    for i in 0..top.len() {
        v.push((top.score_at(i), String::from_utf8(top.name_at(i)).unwrap()));
    }
    v
}

#[test]
fn two_files_in_a_small_tree() {
    let mut st = fresh("root", 10);
    assert_eq!(st.absorb_batch(&vec![file("root/a", 100, 7, NOW)]), Ok(()));
    assert_eq!(st.absorb_batch(&vec![file("root/b/c", 50, 7, NOW)]), Ok(()));
    st.finish();
    assert_eq!(st.total_usage, 150);
    assert_eq!(ranking(&st.top_dir), vec![(100, "root".to_string()), (50, "root/b".to_string())]);
    assert_eq!(ranking(&st.top_dir_overall), vec![(150, "root".to_string()), (50, "root/b".to_string())]);
    assert_eq!(st.user_usage(7), Some((2, 150)));
    assert_eq!(st.total_entries, 2);
    assert_eq!(ranking(&st.top_files), vec![(100, "root/a".to_string()), (50, "root/b/c".to_string())]);
    assert_eq!(ranking(&st.top_cnt_file), vec![(1, "root".to_string()), (1, "root/b".to_string())]);
    assert_eq!(ranking(&st.top_cnt_overall), vec![(2, "root".to_string()), (1, "root/b".to_string())]);
    assert!(st.top_cnt_dir.is_empty());
    assert!(st.top_ext.is_empty());
}

#[test]
fn a_directory_entry_is_counted_too() {
    let mut st = fresh("root", 10);
    assert_eq!(st.absorb_batch(&vec![file("root/a", 100, 7, NOW), dir("root/b", 0, 7, NOW)]), Ok(()));
    assert_eq!(st.absorb_batch(&vec![file("root/b/c", 50, 7, NOW)]), Ok(()));
    st.finish();
    assert_eq!(st.total_usage, 150);
    assert_eq!(st.user_usage(7), Some((3, 150)));
    let root = stats_of(&st, "root");
    assert_eq!(root.dir_count_directly, 1);
    assert_eq!(root.dir_count_recursively, 1);
    assert_eq!(root.file_count_directly, 1);
    assert_eq!(root.file_count_recursively, 2);
    assert_eq!(root.size_directly, 100);
    assert_eq!(root.size_recursively, 150);
    assert_eq!(ranking(&st.top_cnt_dir), vec![(1, "root".to_string())]);
}

#[test]
fn batches_may_come_in_any_order() {
    let mut a = fresh("/r", 10);
    let mut b = fresh("/r", 10);
    let first = vec![file("/r/x.txt", 10, 1, NOW), dir("/r/d", 4096, 2, NOW)];
    let second = vec![file("/r/d/y.txt", 20, 1, NOW), file("/r/d/z.log", 5, 2, NOW)];
    assert_eq!(a.absorb_batch(&first), Ok(()));
    assert_eq!(a.absorb_batch(&second), Ok(()));
    assert_eq!(b.absorb_batch(&second), Ok(()));
    assert_eq!(b.absorb_batch(&first), Ok(()));
    a.finish();
    b.finish();
    assert_eq!(a.total_usage, b.total_usage);
    assert_eq!(a.total_usage, 10 + 4096 + 20 + 5);
    assert_eq!(a.user_usage(1), b.user_usage(1));
    assert_eq!(a.user_usage(1), Some((2, 30)));
    assert_eq!(a.user_usage(2), Some((2, 4101)));
    assert_eq!(a.extensions.get(&b".txt".to_vec()), Some(30));
    assert_eq!(b.extensions.get(&b".txt".to_vec()), Some(30));
    assert_eq!(a.extensions.get(&b".log".to_vec()), b.extensions.get(&b".log".to_vec()));
    assert_eq!(stats_of(&a, "/r").size_recursively, stats_of(&b, "/r").size_recursively);
    assert_eq!(stats_of(&a, "/r").size_recursively, 4131);
    assert_eq!(stats_of(&a, "/r/d").size_recursively, 25);
    assert_eq!(ranking(&a.top_dir_overall), ranking(&b.top_dir_overall));
}

#[test]
fn recursive_counts_are_direct_plus_children() {
    let mut st = fresh("/r", 10);
    st.absorb_batch(&vec![file("/r/a/b/c/f1", 1, 0, NOW), file("/r/a/b/c/f2", 2, 0, NOW)]).unwrap();
    st.absorb_batch(&vec![file("/r/a/b/g", 4, 0, NOW), dir("/r/a/b/c", 8, 0, NOW)]).unwrap();
    st.absorb_batch(&vec![file("/r/a/h", 16, 0, NOW)]).unwrap();
    st.absorb_batch(&vec![file("/r/k/m", 32, 0, NOW)]).unwrap();
    st.absorb_batch(&vec![file("/r/top", 64, 0, NOW), dir("/r/a", 128, 0, NOW), dir("/r/k", 256, 0, NOW)]).unwrap();
    st.finish();
    let r = stats_of(&st, "/r");
    let a = stats_of(&st, "/r/a");
    let ab = stats_of(&st, "/r/a/b");
    let abc = stats_of(&st, "/r/a/b/c");
    let k = stats_of(&st, "/r/k");
    assert_eq!(abc.size_directly, 3);
    assert_eq!(abc.size_recursively, 3);
    assert_eq!(ab.size_directly, 12);
    assert_eq!(ab.size_recursively, ab.size_directly + abc.size_recursively);
    assert_eq!(a.size_directly, 16);
    assert_eq!(a.size_recursively, a.size_directly + ab.size_recursively);
    assert_eq!(k.size_recursively, 32);
    assert_eq!(r.size_directly, 64 + 128 + 256);
    assert_eq!(r.size_recursively, r.size_directly + a.size_recursively + k.size_recursively);
    assert_eq!(r.size_recursively, 511);
    assert_eq!(r.file_count_recursively, 6);
    assert_eq!(r.file_count_recursively, r.file_count_directly + a.file_count_recursively + k.file_count_recursively);
    assert_eq!(r.dir_count_recursively, 3);
    assert_eq!(r.dir_count_recursively, r.dir_count_directly + a.dir_count_recursively + k.dir_count_recursively);
    assert!(r.size_recursively >= r.size_directly);
    assert!(a.file_count_recursively >= a.file_count_directly);
    assert!(ab.dir_count_recursively >= ab.dir_count_directly);
    assert!(a.size_recursively + k.size_recursively <= st.total_usage);
    assert_eq!(st.total_usage, 511);
}

#[test]
fn directories_above_a_batch_get_a_record() {
    let mut st = fresh("/r", 10);
    st.absorb_batch(&vec![file("/r/a/b/c/f", 9, 0, NOW)]).unwrap();
    assert_eq!(st.dtree.len(), 4);
    assert_eq!(st.dtree.path_at(0), &b"/r".to_vec());
    assert_eq!(st.dtree.path_at(1), &b"/r/a".to_vec());
    assert_eq!(st.dtree.path_at(2), &b"/r/a/b".to_vec());
    assert_eq!(st.dtree.path_at(3), &b"/r/a/b/c".to_vec());
    assert_eq!(stats_of(&st, "/r/a").size_directly, 0);
    assert_eq!(stats_of(&st, "/r/a/b/c").size_directly, 9);
    assert!(st.dir_stats(&b"/".to_vec()).is_none());
    st.finish();
    assert_eq!(stats_of(&st, "/r").size_recursively, 9);
    assert_eq!(stats_of(&st, "/r/a").file_count_recursively, 1);
}

#[test]
fn a_batch_outside_the_root_is_dropped() {
    let mut st = fresh("/r/sub", 10);
    assert_eq!(st.absorb_batch(&vec![file("/r/other/f", 9, 0, NOW)]), Ok(()));
    assert_eq!(st.absorb_batch(&vec![file("/r/subway/f", 9, 0, NOW)]), Ok(()));
    assert_eq!(st.absorb_batch(&vec![file("/r/f", 9, 0, NOW)]), Ok(()));
    assert_eq!(st.total_usage, 0);
    assert_eq!(st.total_entries, 0);
    assert_eq!(st.dtree.len(), 0);
    assert!(st.top_files.is_empty());
    assert_eq!(st.user_usage(0), None);
    assert_eq!(st.absorb_batch(&vec![file("/r/sub/f", 9, 0, NOW)]), Ok(()));
    assert_eq!(st.total_usage, 9);
}

#[test]
fn an_empty_batch_changes_nothing() {
    let mut st = fresh("/r", 10);
    assert_eq!(st.absorb_batch(&vec![]), Ok(()));
    assert_eq!(st.absorb_batch(&vec![file("/", 5, 0, NOW)]), Ok(()));
    assert_eq!(st.absorb_batch(&vec![file("", 5, 0, NOW)]), Ok(()));
    assert_eq!(st.total_usage, 0);
    assert_eq!(st.dtree.len(), 0);
}

#[test]
fn the_directory_of_a_batch_is_that_of_its_first_entry() {
    let mut st = fresh("/r", 10);
    st.absorb_batch(&vec![file("/r/a/f", 1, 0, NOW), file("/r/b/g", 2, 0, NOW)]).unwrap();
    assert_eq!(stats_of(&st, "/r/a").size_directly, 3);
    assert!(st.dir_stats(&b"/r/b".to_vec()).is_none());
}

#[test]
fn a_total_that_does_not_fit_is_refused() {
    let mut st = fresh("/r", 10);
    st.absorb_batch(&vec![file("/r/big", u64::MAX - 10, 3, NOW)]).unwrap();
    let r = st.absorb_batch(&vec![file("/r/d/small", 5, 3, NOW), file("/r/d/more", 6, 3, NOW)]);
    assert_eq!(r, Err(StatsError::Overflow));
    assert_eq!(st.total_usage, u64::MAX - 10);
    assert_eq!(st.total_entries, 1);
    assert_eq!(st.dtree.len(), 1);
    assert_eq!(st.user_usage(3), Some((1, u64::MAX - 10)));
    assert_eq!(st.top_files.len(), 1);
    assert_eq!(st.absorb_batch(&vec![file("/r/d/small", 10, 3, NOW)]), Ok(()));
    assert_eq!(st.total_usage, u64::MAX);
    st.finish();
    assert_eq!(stats_of(&st, "/r").size_recursively, u64::MAX);
}

#[test]
fn sum_of_a_batch() {
    let list = vec![file("/r/a", 5, 0, NOW), dir("/r/b", 7, 0, NOW)];
    assert_eq!(batch_total(&list, 12), Some(12));
    assert_eq!(batch_total(&list, 11), None);
    assert_eq!(batch_total(&vec![], 0), Some(0));
}

#[test]
fn old_files_count_for_the_largest_files_only() {
    let newer = AgeFilter { newer_than: Some(NOW - 9000 * SECOND), older_than: None };
    let mut st = AllStats::new(b"/r".to_vec(), 10, newer);
    st.absorb_batch(&vec![
        file("/r/fresh.txt", 10, 1, NOW - 100 * SECOND),
        file("/r/stale.txt", 500, 1, NOW - 10000 * SECOND),
        file("/r/edge.txt", 7, 1, NOW - 9000 * SECOND),
    ]).unwrap();
    st.finish();
    let r = stats_of(&st, "/r");
    assert_eq!(r.size_directly, 10);
    assert_eq!(r.file_count_directly, 1);
    assert_eq!(r.size_recursively, 10);
    assert_eq!(st.extensions.get(&b".txt".to_vec()), Some(10));
    assert_eq!(ranking(&st.top_files)[0], (500, "/r/stale.txt".to_string()));
    assert_eq!(st.top_files.len(), 3);
    assert_eq!(st.total_usage, 517);
    assert_eq!(st.user_usage(1), Some((3, 517)));
}

#[test]
fn the_older_than_filter_is_strict() {
    let older = AgeFilter { newer_than: None, older_than: Some(NOW) };
    assert!(older.passes(NOW - 1));
    assert!(!older.passes(NOW));
    let both = AgeFilter { newer_than: Some(NOW - 10), older_than: Some(NOW) };
    assert!(both.passes(NOW - 5));
    assert!(!both.passes(NOW - 10));
    assert!(AgeFilter::none().passes(i128::MIN));
    let mut st = AllStats::new(b"/r".to_vec(), 10, older);
    st.absorb_batch(&vec![dir("/r/d", 10, 1, NOW + 5), dir("/r/e", 20, 1, NOW - 5)]).unwrap();
    assert_eq!(stats_of(&st, "/r").dir_count_directly, 1);
    assert_eq!(stats_of(&st, "/r").size_directly, 20);
}

#[test]
fn ten_thousand_empty_directories() {
    let mut st = fresh("/r", 10);
    let mut list = Vec::new();
    for i in 0..10000 {
        list.push(dir(&format!("/r/d{}", i), 0, 1, NOW));
    }
    st.absorb_batch(&list).unwrap();
    st.finish();
    assert_eq!(stats_of(&st, "/r").dir_count_recursively, 10000);
    assert_eq!(ranking(&st.top_cnt_dir), vec![(10000, "/r".to_string())]);
    assert_eq!(st.dtree.len(), 1);
    assert!(st.top_files.is_empty());
    assert_eq!(st.total_usage, 0);
    assert_eq!(st.user_usage(1), Some((10000, 0)));
}

#[test]
fn many_directories_with_files() {
    let mut st = fresh("/r", 3);
    for i in 0..300u64 {
        let d = format!("/r/d{:03}", i);
        st.absorb_batch(&vec![file(&format!("{}/f.bin", d), i + 1, (i % 3) as u32, NOW)]).unwrap();
    }
    st.finish();
    assert_eq!(st.dtree.len(), 301);
    assert_eq!(st.total_usage, 300 * 301 / 2);
    assert_eq!(stats_of(&st, "/r").size_recursively, 300 * 301 / 2);
    assert_eq!(stats_of(&st, "/r").size_directly, 0);
    assert_eq!(ranking(&st.top_dir), vec![
        (300, "/r/d299".to_string()),
        (299, "/r/d298".to_string()),
        (298, "/r/d297".to_string()),
    ]);
    assert_eq!(ranking(&st.top_dir_overall)[0], (45150, "/r".to_string()));
    assert_eq!(st.extensions.get(&b".bin".to_vec()), Some(45150));
    assert_eq!(ranking(&st.top_ext), vec![(45150, ".bin".to_string())]);
    for i in 1..st.dtree.len() {
        assert!(st.dtree.path_at(i - 1) < st.dtree.path_at(i));
    }
}

#[test]
fn extensions_are_summed() {
    let mut st = fresh("/r", 10);
    st.absorb_batch(&vec![
        file("/r/archive.tar.gz", 100, 0, NOW),
        file("/r/other.tar.gz", 11, 0, NOW),
        file("/r/notes.txt", 5, 0, NOW),
        file("/r/README", 1000, 0, NOW),
        file("/r/v1.2/plain", 7, 0, NOW),
        dir("/r/dir.d", 9, 0, NOW),
    ]).unwrap();
    st.finish();
    assert_eq!(st.extensions.len(), 2);
    assert_eq!(st.extensions.get(&b".tar.gz".to_vec()), Some(111));
    assert_eq!(st.extensions.get(&b".txt".to_vec()), Some(5));
    assert_eq!(st.extensions.get(&b".d".to_vec()), None);
    assert_eq!(st.extensions.get(&b".2/plain".to_vec()), None);
    assert_eq!(ranking(&st.top_ext), vec![(111, ".tar.gz".to_string()), (5, ".txt".to_string())]);
}

#[test]
fn finishing_twice_gives_the_same() {
    let mut st = fresh("/r", 2);
    st.absorb_batch(&vec![file("/r/a.x", 3, 0, NOW), file("/r/b.y", 4, 0, NOW), file("/r/c.z", 5, 0, NOW)]).unwrap();
    st.absorb_batch(&vec![file("/r/d/e.x", 6, 0, NOW)]).unwrap();
    st.finish();
    let once = (ranking(&st.top_dir), ranking(&st.top_dir_overall), ranking(&st.top_ext), stats_of(&st, "/r").size_recursively);
    st.finish();
    let twice = (ranking(&st.top_dir), ranking(&st.top_dir_overall), ranking(&st.top_ext), stats_of(&st, "/r").size_recursively);
    assert_eq!(once, twice);
    assert_eq!(once.3, 18);
    assert_eq!(once.2, vec![(9, ".x".to_string()), (5, ".z".to_string())]);
    st.absorb_batch(&vec![file("/r/d/q/late.y", 100, 0, NOW)]).unwrap();
    st.finish();
    assert_eq!(stats_of(&st, "/r").size_recursively, 118);
    assert_eq!(stats_of(&st, "/r/d").size_recursively, 106);
}

#[test]
fn the_root_may_be_the_top_of_the_file_system() {
    let mut st = fresh("/", 10);
    st.absorb_batch(&vec![file("/f", 1, 0, NOW)]).unwrap();
    st.absorb_batch(&vec![file("/etc/g", 2, 0, NOW)]).unwrap();
    st.finish();
    assert_eq!(st.dtree.len(), 2);
    assert_eq!(stats_of(&st, "/").size_recursively, 3);
    assert_eq!(stats_of(&st, "/etc").size_recursively, 2);
}

#[test]
fn a_relative_root() {
    let mut st = fresh("", 10);
    st.absorb_batch(&vec![file("f", 1, 0, NOW)]).unwrap();
    st.absorb_batch(&vec![file("sub/g", 2, 0, NOW)]).unwrap();
    st.finish();
    assert_eq!(stats_of(&st, "").size_recursively, 3);
    assert_eq!(stats_of(&st, "sub").size_directly, 2);
}

#[test]
fn ranking_directories_by_a_score() {
    let mut st = fresh("/r", 10);
    st.absorb_batch(&vec![file("/r/a/f", 5, 0, NOW)]).unwrap();
    st.absorb_batch(&vec![file("/r/b/f", 5, 0, NOW), file("/r/b/g", 1, 0, NOW)]).unwrap();
    let by_files = rank_dirs(&st.dtree, 1, DirScore::FilesDirect);
    assert_eq!(ranking(&by_files), vec![(2, "/r/b".to_string())]);
    let by_size = rank_dirs(&st.dtree, 5, DirScore::SizeDirect);
    assert_eq!(ranking(&by_size), vec![(6, "/r/b".to_string()), (5, "/r/a".to_string())]);
    let none = rank_dirs(&st.dtree, 0, DirScore::SizeDirect);
    assert!(none.is_empty());
}

#[test]
fn separators_at_the_end_of_the_root_do_not_matter() {
    let mut st = fresh("/r//", 10);
    assert_eq!(st.root, b"/r".to_vec());
    st.absorb_batch(&vec![file("/r/f", 3, 0, NOW)]).unwrap();
    st.finish();
    assert_eq!(stats_of(&st, "/r").size_recursively, 3);
}

#[test]
fn many_batches_in_many_orders() {
    let batches: Vec<Vec<Entry>> = vec![
        vec![file("/r/a.txt", 10, 1, NOW), dir("/r/d", 7, 2, NOW), dir("/r/e", 7, 1, NOW)],
        vec![file("/r/d/b.txt", 20, 1, NOW), file("/r/d/c.log", 20, 2, NOW), dir("/r/d/x", 3, 2, NOW)],
        vec![file("/r/d/x/deep.tar.gz", 20, 3, NOW)],
        vec![file("/r/e/one", 5, 1, NOW), file("/r/e/two.txt", 10, 1, NOW)],
        vec![file("/outside/lost", 99, 9, NOW)],
        vec![file("/r/d/b.txt", 20, 1, NOW), file("/r/d/c.log", 20, 2, NOW), dir("/r/d/x", 3, 2, NOW)],
    ];
    let orders: Vec<Vec<usize>> = vec![
        vec![0, 1, 2, 3, 4, 5],
        vec![5, 4, 3, 2, 1, 0],
        vec![2, 0, 5, 3, 1, 4],
        vec![3, 5, 1, 4, 0, 2],
    ];
    let mut seen: Vec<(u64, u64, Vec<(u32, (u64, u64))>, Vec<(Vec<u8>, u64, u64, u64)>, Vec<(Vec<u8>, u64)>, Vec<u64>)> = Vec::new();
    for order in &orders {
        let mut st = fresh("/r", 3);
        for i in order {
            st.absorb_batch(&batches[*i]).unwrap();
        }
        st.finish();
        let users: Vec<(u32, (u64, u64))> = st.user_map.iter().map(|(k, v)| (*k, *v)).collect();
        let tree: Vec<(Vec<u8>, u64, u64, u64)> = (0..st.dtree.len())
            .map(|i| {
                let s = st.dtree.stats_at(i);
                (st.dtree.path_at(i).clone(), s.size_directly, s.size_recursively, s.file_count_recursively)
            })
            .collect();
        let exts: Vec<(Vec<u8>, u64)> =
            (0..st.extensions.len()).map(|i| (st.extensions.name_at(i).clone(), st.extensions.total_at(i))).collect();
        let scores: Vec<u64> = (0..st.top_files.len()).map(|i| st.top_files.score_at(i)).collect();
        assert_eq!(ranking(&st.top_dir), ranking(&rank_dirs(&st.dtree, 3, DirScore::SizeDirect)));
        seen.push((st.total_usage, st.total_entries, users, tree, exts, scores));
    }
    for other in &seen[1..] {
        assert_eq!(&seen[0], other);
    }
    assert_eq!(seen[0].0, 145);
    assert_eq!(seen[0].1, 12);
    assert_eq!(seen[0].5, vec![20, 20, 20]);
}
