use feed_align::error::AlignmentError;
use feed_align::matching::{prepare_correspondences, ratio_filter, select_matches, Match};

fn m(query: usize, train: usize, distance: u32) -> Match {
    Match { query, train, distance }
}

#[test]
fn ratio_test_keeps_distinct_best_matches() {
    let cands = vec![
        vec![m(0, 5, 10), m(0, 6, 20)],
        vec![m(1, 2, 14), m(1, 3, 20)],
        vec![m(2, 1, 13), m(2, 4, 20)],
        vec![m(3, 0, 1)],
        vec![],
    ];
    assert_eq!(ratio_filter(&cands), vec![m(0, 5, 10), m(2, 1, 13)]);
}

#[test]
fn fewer_than_four_matches_fail() {
    let few = vec![m(0, 0, 1), m(1, 1, 2), m(2, 2, 3)];
    assert_eq!(select_matches(&few), Err(AlignmentError::InsufficientMatches));
    assert_eq!(select_matches(&vec![]), Err(AlignmentError::InsufficientMatches));
}

#[test]
fn featureless_frames_give_insufficient_matches() {
    assert_eq!(prepare_correspondences(&vec![]), Err(AlignmentError::InsufficientMatches));
    let ambiguous: Vec<Vec<Match>> = (0..10).map(|q| vec![m(q, 0, 30), m(q, 1, 31)]).collect();
    assert_eq!(prepare_correspondences(&ambiguous), Err(AlignmentError::InsufficientMatches));
}

#[test]
fn selection_sorts_and_drops_worst_tenth() {
    let ms: Vec<Match> = (0..20).map(|q| m(q, q + 100, ((q * 7) % 20) as u32)).collect();
    let out = select_matches(&ms).unwrap();
    assert_eq!(out.len(), 18);
    for w in out.windows(2) {
        assert!(w[0].distance <= w[1].distance);
    }
    assert_eq!(out[0].distance, 0);
    assert_eq!(out[17].distance, 17);
}

#[test]
fn selection_is_stable_and_keeps_four() {
    let ms = vec![m(0, 0, 5), m(1, 1, 3), m(2, 2, 5), m(3, 3, 3)];
    assert_eq!(select_matches(&ms), Ok(vec![m(1, 1, 3), m(3, 3, 3), m(0, 0, 5), m(2, 2, 5)]));
}

#[test]
fn correspondences_come_from_ratio_survivors() {
    let cands: Vec<Vec<Match>> = (0..5).map(|q| vec![m(q, 4 - q, q as u32), m(q, 9, 100)]).collect();
    let out = prepare_correspondences(&cands).unwrap();
    assert_eq!(out, vec![m(0, 4, 0), m(1, 3, 1), m(2, 2, 2), m(3, 1, 3), m(4, 0, 4)]);
}
