use reverse_image_search::descriptor::{Descriptor, MAX_SQ_DIST};
use reverse_image_search::matcher::{get_num_matches, matches_in, NeighborIndex, RatioTest};

fn desc(v: u8) -> Descriptor {
    Descriptor { bytes: [v; 64] }
}

fn ratio(num: u32, den: u32) -> RatioTest {
    RatioTest::new(num, den).unwrap()
}

#[test]
fn squared_distance_exact_values() {
    assert_eq!(desc(1).sq_distance(&desc(3)), 256);
    assert_eq!(desc(3).sq_distance(&desc(1)), 256);
    assert_eq!(desc(7).sq_distance(&desc(7)), 0);
    assert_eq!(desc(0).sq_distance(&desc(255)), MAX_SQ_DIST);
    let mut a = desc(0);
    a.bytes[5] = 9;
    assert_eq!(a.sq_distance(&desc(0)), 81);
}

#[test]
fn ratio_must_lie_in_unit_interval() {
    assert!(RatioTest::new(0, 1).is_none());
    assert!(RatioTest::new(3, 2).is_none());
    assert!(RatioTest::new(1, 0).is_none());
    assert!(RatioTest::new(1, 1).is_some());
    let r = RatioTest::new(13, 20).unwrap();
    assert_eq!((r.num, r.den), (13, 20));
}

#[test]
fn ratio_test_is_strict() {
    let r = ratio(1, 2);
    assert!(r.accepts(49, 100));
    assert!(!r.accepts(50, 100));
    assert!(!r.accepts(0, 0));
}

#[test]
fn nearest_two_distances() {
    let idx = NeighborIndex::build(&vec![desc(10), desc(0), desc(3), desc(1)]);
    assert_eq!(idx.len(), 4);
    assert_eq!(idx.nearest_two(&desc(0)), Some((0, 64)));
    assert_eq!(idx.nearest_two(&desc(9)), Some((64, 2304)));
    let small = NeighborIndex::build(&vec![desc(1)]);
    assert_eq!(small.nearest_two(&desc(1)), None);
}

#[test]
fn duplicate_nearest_fails_ratio_test() {
    let idx = NeighborIndex::build(&vec![desc(4), desc(4), desc(200)]);
    assert!(!matches_in(ratio(13, 20), &desc(4), &idx));
}

#[test]
fn counts_distinctive_matches() {
    // nearest 0 against second 6400: accepted; nearest 1600 against 1600: refused
    let search = vec![desc(0), desc(10)];
    let query = vec![desc(0), desc(5), desc(10), desc(1)];
    // desc(5): 1600 vs 1600 -> no; desc(1): 64 vs 5184 -> yes
    assert_eq!(get_num_matches(ratio(13, 20), &query, &search), 3);
}

#[test]
fn count_never_exceeds_query_size() {
    let search = vec![desc(0), desc(100), desc(200)];
    let query = vec![desc(0), desc(100), desc(200), desc(1), desc(101)];
    let n = get_num_matches(ratio(1, 1), &query, &search);
    assert!(n as usize <= query.len());
    assert_eq!(n, 5);
}

#[test]
fn fewer_than_two_candidates_give_no_match() {
    let query = vec![desc(0), desc(1), desc(2)];
    assert_eq!(get_num_matches(ratio(1, 1), &query, &vec![desc(0)]), 0);
    assert_eq!(get_num_matches(ratio(1, 1), &query, &vec![]), 0);
}

#[test]
fn empty_query_gives_no_match() {
    assert_eq!(get_num_matches(ratio(13, 20), &vec![], &vec![desc(0), desc(9)]), 0);
}
