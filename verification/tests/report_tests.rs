use parls::entry::{AgeFilter, Entry, EntryKind, EntryMeta};
use parls::report::{count_rows, report_sections, scanned_label, section_ranking, shows_counts, stands_before, user_rows,
    Section, UserUsage};
use parls::stats::AllStats;
use parls::topn::{track_top_n, TopN};
use std::collections::BTreeMap;

fn file_of(path: &str, size: u64, uid: u32) -> Entry {
    Entry { path: path.as_bytes().to_vec(), meta: EntryMeta { kind: EntryKind::File, size, mtime: 0, uid, mode: 0, readonly: false } }
}

#[test]
fn owners_by_falling_usage() {
    let mut m: BTreeMap<u32, (u64, u64)> = BTreeMap::new();
    m.insert(5, (1, 100));
    m.insert(1, (9, 50));
    m.insert(3, (2, 100));
    m.insert(9, (4, 7000));
    m.insert(0, (1, 0));
    let rows = user_rows(&m);
    assert_eq!(rows, vec![
        UserUsage { uid: 9, count: 4, size: 7000 },
        UserUsage { uid: 3, count: 2, size: 100 },
        UserUsage { uid: 5, count: 1, size: 100 },
        UserUsage { uid: 1, count: 9, size: 50 },
        UserUsage { uid: 0, count: 1, size: 0 },
    ]);
    assert!(user_rows(&BTreeMap::new()).is_empty());
    assert!(stands_before(&rows[0], &rows[1]));
    assert!(stands_before(&rows[1], &rows[2]));
    assert!(!stands_before(&rows[2], &rows[1]));
    assert!(!stands_before(&rows[2], &rows[2]));
}

#[test]
fn an_empty_scan_has_no_sections() {
    let mut st = AllStats::new(b"/r".to_vec(), 10, AgeFilter::none());
    st.finish();
    assert!(report_sections(&st).is_empty());
    assert_eq!(scanned_label(0), "0");
}

#[test]
fn sections_with_rows_are_shown_in_order() {
    let mut st = AllStats::new(b"/r".to_vec(), 10, AgeFilter::none());
    st.absorb_batch(&vec![file_of("/r/a.txt", 10, 1), file_of("/r/b", 20, 2)]).unwrap();
    st.finish();
    assert_eq!(report_sections(&st), vec![
        Section::Users,
        Section::TopDir,
        Section::TopDirOverall,
        Section::TopCntOverall,
        Section::TopCntFile,
        Section::TopFiles,
        Section::TopExt,
    ]);
    assert!(section_ranking(&st, Section::Users).is_none());
    assert_eq!(section_ranking(&st, Section::TopFiles).unwrap().len(), 2);
    assert_eq!(section_ranking(&st, Section::TopCntDir).unwrap().len(), 0);
    assert_eq!(section_ranking(&st, Section::TopExt).unwrap().score_at(0), 10);
    assert_eq!(section_ranking(&st, Section::TopDir).unwrap().score_at(0), 30);
    assert_eq!(section_ranking(&st, Section::TopDirOverall).unwrap().score_at(0), 30);
    assert_eq!(section_ranking(&st, Section::TopCntOverall).unwrap().score_at(0), 2);
    assert_eq!(section_ranking(&st, Section::TopCntFile).unwrap().score_at(0), 2);
    let rows = user_rows(&st.user_map);
    assert_eq!(rows, vec![UserUsage { uid: 2, count: 1, size: 20 }, UserUsage { uid: 1, count: 1, size: 10 }]);
}

#[test]
fn which_sections_show_counts() {
    assert!(shows_counts(Section::TopCntOverall));
    assert!(shows_counts(Section::TopCntFile));
    assert!(shows_counts(Section::TopCntDir));
    assert!(!shows_counts(Section::TopDir));
    assert!(!shows_counts(Section::TopDirOverall));
    assert!(!shows_counts(Section::TopFiles));
    assert!(!shows_counts(Section::TopExt));
    assert!(!shows_counts(Section::Users));
}

#[test]
fn counts_are_shown_with_grouped_digits() {
    let mut top = TopN::new(10);
    for (name, score) in [("a", 1234567u64), ("b", 999), ("c", 1000), ("d", 10000), ("e", 18446744073709551615), ("f", 5)] {
        track_top_n(&mut top, &name.as_bytes().to_vec(), score);
    }
    let rows = count_rows(&top);
    let shown: Vec<(String, String)> = rows.into_iter().map(|r| (r.label, String::from_utf8(r.name).unwrap())).collect();
    assert_eq!(shown, vec![
        ("18,446,744,073,709,551,615".to_string(), "e".to_string()),
        ("1,234,567".to_string(), "a".to_string()),
        ("10,000".to_string(), "d".to_string()),
        ("1,000".to_string(), "c".to_string()),
        ("999".to_string(), "b".to_string()),
        ("5".to_string(), "f".to_string()),
    ]);
}

#[test]
fn the_number_of_entries_scanned() {
    let mut st = AllStats::new(b"/r".to_vec(), 10, AgeFilter::none());
    let mut list = Vec::new();
    for i in 0..1500 {
        list.push(file_of(&format!("/r/f{}", i), 1, 0));
    }
    st.absorb_batch(&list).unwrap();
    assert_eq!(scanned_label(list.len()), "1,500");
    let dropped = vec![file_of("/elsewhere/f", 1, 0)];
    st.absorb_batch(&dropped).unwrap();
    assert_eq!(st.total_entries, 1500);
    assert_eq!(scanned_label(list.len() + dropped.len()), "1,501");
    assert_eq!(scanned_label(usize::MAX), "18,446,744,073,709,551,615");
}
