use parls::entry::{AgeFilter, Entry, EntryKind, EntryMeta};
use parls::filter::Filters;
use parls::report::{report_sections, user_rows, Section, UserUsage};
use parls::stats::AllStats;
use parls::topn::TopN;
use parls::worker::{after_listing, after_pop, DirChild, WorkerAction};
use parls::worker_queue::{FinishStep, PopStep, WakeUp, WorkerQueue};

const T0: i128 = 1_700_000_000_000_000_000;
const SEC: i128 = 1_000_000_000;

fn node(name: &str, kind: EntryKind, size: u64, uid: u32, mtime: i128) -> DirChild {
    DirChild { name: name.as_bytes().to_vec(), meta: EntryMeta { kind, size, mtime, uid, mode: 0o644, readonly: false } }
}

fn small_tree(dir: &[u8]) -> Option<Vec<DirChild>> {
    match dir {
        b"root" => Some(vec![
            node("a", EntryKind::File, 100, 7, T0 - 10 * SEC),
            node("b", EntryKind::Dir, 0, 7, T0 - 10 * SEC),
            node("s", EntryKind::Symlink, 4, 7, T0),
            node("locked", EntryKind::Dir, 0, 0, T0),
        ]),
        b"root/b" => Some(vec![node("c", EntryKind::File, 50, 7, T0 - 10000 * SEC)]),
        b"root/locked" => None,
        _ => panic!("a directory outside the tree was listed"),
    }
}

fn scan(tree: fn(&[u8]) -> Option<Vec<DirChild>>, root: &str, filters: &Filters, limit: usize, workers: usize) -> (AllStats, usize) {
    let mut work: WorkerQueue<Option<Vec<u8>>> = WorkerQueue::new(workers, 0);
    let mut batches: WorkerQueue<Option<Vec<Entry>>> = WorkerQueue::new(1, 0);
    work.push(Some(root.as_bytes().to_vec())).unwrap();
    let mut parked = vec![false; workers];
    let mut ended = vec![false; workers];
    let mut released = false;
    let mut listed = 0;
    while ended.iter().any(|e| !e) {
        for w in 0..workers {
            if ended[w] {
                continue;
            }
            let step = if parked[w] { work.pop_retry() } else { work.pop() };
            let item = match step {
                PopStep::Empty { .. } => {
                    parked[w] = true;
                    continue;
                },
                PopStep::Item(item) => item,
            };
            parked[w] = false;
            match after_pop(item) {
                WorkerAction::Exit => ended[w] = true,
                WorkerAction::List(p) => {
                    listed += 1;
                    let children = tree(&p);
                    let handoff = after_listing(filters, &p, children.as_ref());
                    if let Some(batch) = handoff.batch {
                        batches.push(Some(batch)).unwrap();
                    }
                    for d in handoff.dirs {
                        work.push(Some(d)).unwrap();
                    }
                },
            }
        }
        if !released {
            if let Ok(FinishStep::Quiescent(n)) = work.wait_for_finish_timeout(WakeUp::Notified) {
                assert_eq!(n, workers);
                for _ in 0..workers {
                    work.push(None).unwrap();
                }
                released = true;
            }
        }
    }
    batches.push(None).unwrap();
    let mut stats = AllStats::new(root.as_bytes().to_vec(), limit, AgeFilter { newer_than: filters.age.newer_than, older_than: filters.age.older_than });
    loop {
        match batches.pop() {
            PopStep::Item(Some(list)) => stats.absorb_batch(&list).unwrap(),
            PopStep::Item(None) => break,
            PopStep::Empty { .. } => panic!("the sentinel is missing"),
        }
    }
    stats.finish();
    (stats, listed)
}

fn rows(top: &TopN) -> Vec<(u64, String)> {
    (0..top.len()).map(|i| (top.score_at(i), String::from_utf8(top.name_at(i)).unwrap())).collect()
}

#[test]
fn a_scan_of_a_small_tree() {
    let (st, listed) = scan(small_tree, "root", &Filters::none(), 10, 4);
    assert_eq!(listed, 3);
    assert_eq!(st.total_usage, 150);
    assert_eq!(rows(&st.top_dir), vec![(100, "root".to_string()), (50, "root/b".to_string())]);
    assert_eq!(rows(&st.top_dir_overall), vec![(150, "root".to_string()), (50, "root/b".to_string())]);
    assert_eq!(rows(&st.top_files), vec![(100, "root/a".to_string()), (50, "root/b/c".to_string())]);
    assert_eq!(rows(&st.top_cnt_dir), vec![(2, "root".to_string())]);
    assert_eq!(user_rows(&st.user_map), vec![
        UserUsage { uid: 7, count: 3, size: 150 },
        UserUsage { uid: 0, count: 1, size: 0 },
    ]);
    for i in 0..st.dtree.len() {
        assert_ne!(st.dtree.path_at(i), &b"root/s".to_vec());
    }
    for (_, name) in rows(&st.top_files) {
        assert_ne!(name, "root/s");
    }
}

#[test]
fn scanning_twice_gives_the_same() {
    let filters = Filters { re: Some("a|c".to_string()), exclude_re: None, age: AgeFilter::none() };
    let (one, _) = scan(small_tree, "root", &filters, 10, 2);
    let (two, _) = scan(small_tree, "root", &filters, 10, 2);
    let (three, _) = scan(small_tree, "root", &filters, 10, 5);
    for other in [&two, &three] {
        assert_eq!(one.total_usage, other.total_usage);
        assert_eq!(one.total_entries, other.total_entries);
        assert_eq!(user_rows(&one.user_map), user_rows(&other.user_map));
        assert_eq!(rows(&one.top_dir), rows(&other.top_dir));
        assert_eq!(rows(&one.top_dir_overall), rows(&other.top_dir_overall));
        assert_eq!(rows(&one.top_files), rows(&other.top_files));
        assert_eq!(rows(&one.top_cnt_overall), rows(&other.top_cnt_overall));
        assert_eq!(report_sections(&one), report_sections(other));
    }
    assert_eq!(one.total_usage, 150);
}

#[test]
fn a_scan_with_a_pattern_that_nothing_matches() {
    let filters = Filters { re: Some(r".*\.log$".to_string()), exclude_re: None, age: AgeFilter::none() };
    let (st, listed) = scan(small_tree, "root", &filters, 10, 4);
    assert_eq!(listed, 3);
    assert_eq!(st.total_usage, 0);
    assert!(st.top_files.is_empty());
    assert!(st.top_dir.is_empty());
    assert!(st.top_dir_overall.is_empty());
    assert!(st.top_cnt_file.is_empty());
    assert!(st.top_cnt_overall.is_empty());
    assert!(st.top_ext.is_empty());
    assert_eq!(rows(&st.top_cnt_dir), vec![(2, "root".to_string())]);
    assert_eq!(report_sections(&st), vec![Section::Users, Section::TopCntDir]);
}

#[test]
fn a_scan_with_an_age_filter() {
    let filters = Filters { re: None, exclude_re: None, age: AgeFilter { newer_than: Some(T0 - 9000 * SEC), older_than: None } };
    let (st, _) = scan(small_tree, "root", &filters, 10, 1);
    assert_eq!(st.total_usage, 100);
    assert_eq!(rows(&st.top_files), vec![(100, "root/a".to_string())]);
    assert_eq!(st.dir_stats(&b"root".to_vec()).unwrap().size_recursively, 100);
    assert_eq!(st.dtree.len(), 1);
}

#[test]
fn a_directory_that_cannot_be_read_does_not_stop_the_scan() {
    let (st, listed) = scan(small_tree, "root", &Filters::none(), 10, 3);
    assert_eq!(listed, 3);
    assert!(st.dir_stats(&b"root/locked".to_vec()).is_none());
    assert_eq!(st.dir_stats(&b"root/b".to_vec()).unwrap().size_directly, 50);
}
