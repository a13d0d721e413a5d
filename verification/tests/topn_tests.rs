use parls::topn::{to_sort_vec, track_top_n, TopN};

fn names(top: &TopN) -> Vec<(u64, String)> {
    to_sort_vec(top).into_iter().map(|t| (t.size, String::from_utf8(t.path).unwrap())).collect()
}

fn offer(top: &mut TopN, name: &str, score: u64) {
    track_top_n(top, &name.as_bytes().to_vec(), score);
}

#[test]
fn a_ranking_keeps_the_highest() {
    let mut top = TopN::new(3);
    for (n, s) in [("a", 5), ("b", 9), ("c", 1), ("d", 7), ("e", 3), ("f", 8)] {
        offer(&mut top, n, s);
    }
    assert_eq!(names(&top), vec![(9, "b".to_string()), (8, "f".to_string()), (7, "d".to_string())]);
    assert_eq!(top.len(), 3);
    assert_eq!(top.limit(), 3);
}

#[test]
fn a_score_of_zero_is_never_taken() {
    let mut top = TopN::new(3);
    offer(&mut top, "empty", 0);
    assert!(top.is_empty());
    offer(&mut top, "one", 1);
    offer(&mut top, "nothing", 0);
    assert_eq!(names(&top), vec![(1, "one".to_string())]);
}

#[test]
fn fewer_offers_than_room() {
    let mut top = TopN::new(10);
    offer(&mut top, "x", 2);
    offer(&mut top, "y", 4);
    assert_eq!(top.len(), 2);
    assert_eq!(top.score_at(0), 4);
    assert_eq!(top.name_at(1), b"x".to_vec());
}

#[test]
fn of_equal_scores_the_first_stays() {
    let mut top = TopN::new(2);
    offer(&mut top, "first", 5);
    offer(&mut top, "second", 5);
    offer(&mut top, "third", 5);
    assert_eq!(names(&top), vec![(5, "first".to_string()), (5, "second".to_string())]);
    offer(&mut top, "better", 6);
    assert_eq!(names(&top), vec![(6, "better".to_string()), (5, "first".to_string())]);
}

#[test]
fn a_full_ranking_turns_lower_scores_away() {
    let mut top = TopN::new(2);
    offer(&mut top, "a", 10);
    offer(&mut top, "b", 20);
    offer(&mut top, "low", 9);
    offer(&mut top, "same", 10);
    assert_eq!(names(&top), vec![(20, "b".to_string()), (10, "a".to_string())]);
    let lowest = top.score_at(top.len() - 1);
    assert!(lowest >= 9 && lowest >= 10);
}

#[test]
fn a_ranking_without_room() {
    let mut top = TopN::new(0);
    offer(&mut top, "a", 10);
    assert!(top.is_empty());
    assert_eq!(to_sort_vec(&top).len(), 0);
}

#[test]
fn a_ranking_of_one() {
    let mut top = TopN::new(1);
    offer(&mut top, "a", 1);
    offer(&mut top, "b", u64::MAX);
    offer(&mut top, "c", 5);
    assert_eq!(names(&top), vec![(u64::MAX, "b".to_string())]);
}

#[test]
fn the_order_of_offers_does_not_matter_without_ties() {
    let offers = [("a", 5u64), ("b", 9), ("c", 1), ("d", 7), ("e", 3), ("f", 8), ("z", 0)];
    let mut forward = TopN::new(4);
    for (n, s) in offers.iter() {
        offer(&mut forward, n, *s);
    }
    let mut backward = TopN::new(4);
    for (n, s) in offers.iter().rev() {
        offer(&mut backward, n, *s);
    }
    assert_eq!(names(&forward), names(&backward));
    assert_eq!(names(&forward), vec![
        (9, "b".to_string()),
        (8, "f".to_string()),
        (7, "d".to_string()),
        (5, "a".to_string()),
    ]);
}

#[test]
fn with_ties_the_order_of_offers_decides() {
    let mut one = TopN::new(1);
    offer(&mut one, "x", 5);
    offer(&mut one, "y", 5);
    let mut other = TopN::new(1);
    offer(&mut other, "y", 5);
    offer(&mut other, "x", 5);
    assert_eq!(names(&one), vec![(5, "x".to_string())]);
    assert_eq!(names(&other), vec![(5, "y".to_string())]);
}

#[test]
fn what_is_left_out_scores_no_more_than_what_is_held() {
    let offers: Vec<u64> = vec![12, 3, 99, 41, 41, 7, 0, 58, 2, 77, 41, 63];
    let mut top = TopN::new(5);
    for (i, s) in offers.iter().enumerate() {
        offer(&mut top, &format!("n{}", i), *s);
    }
    let held = names(&top);
    assert_eq!(held.len(), 5);
    let lowest = held[held.len() - 1].0;
    for (i, s) in offers.iter().enumerate() {
        let name = format!("n{}", i);
        if !held.iter().any(|(_, n)| *n == name) {
            assert!(*s <= lowest);
        }
    }
    let mut sorted = offers.clone();
    sorted.sort();
    sorted.reverse();
    let scores: Vec<u64> = held.iter().map(|(s, _)| *s).collect();
    assert_eq!(scores, sorted[..5].to_vec());
    assert_eq!(held[2], (63, "n11".to_string()));
    assert_eq!(held[4], (41, "n3".to_string()));
}
