use std::collections::HashMap;

use reverse_image_search::cache::{on_extracted, on_lookup, on_stored, ExtractionError, Features, Lookup, StorageError};
use reverse_image_search::codec::MyKeyPoint;
use reverse_image_search::descriptor::Descriptor;
use reverse_image_search::dispatch::{num_workers, partition, resolve_num_workers, RunResults};
use reverse_image_search::matcher::RatioTest;

fn desc(v: u8) -> Descriptor {
    Descriptor { bytes: [v; 64] }
}

fn kp(o: u64) -> MyKeyPoint {
    MyKeyPoint { x_bits: 1, y_bits: 2, response_bits: 3, size_bits: 4, octave: o, class_id: 0, angle_bits: 5 }
}

/// Runs one lookup-or-extract against an in-memory store, counting
/// extractions.
fn get_or_extract(
    store: &mut HashMap<String, Vec<u8>>,
    path: &str,
    image: Option<(Vec<MyKeyPoint>, Vec<Descriptor>)>,
    extractions: &mut u32,
) -> Result<Features, ExtractionError> {
    match on_lookup(Ok(store.get(path).cloned())) {
        Ok(Lookup::Cached(f)) => Ok(f),
        Ok(Lookup::Extract) => {
            *extractions += 1;
            let pending = on_extracted(path.to_string(), image)?;
            store.insert(pending.key.clone(), pending.bytes.clone());
            match on_stored(pending, Ok(())) {
                Ok(f) => Ok(f),
                Err(_) => panic!("store failure"),
            }
        }
        Err(_) => panic!("store failure"),
    }
}

#[test]
fn second_lookup_is_cached() {
    let mut store = HashMap::new();
    let mut extractions = 0;
    let image = (vec![kp(1), kp(2)], vec![desc(3), desc(4), desc(5)]);
    let first = get_or_extract(&mut store, "/a.png", Some(image.clone()), &mut extractions).unwrap();
    assert!(!first.was_cached);
    assert_eq!(extractions, 1);
    let second = get_or_extract(&mut store, "/a.png", Some(image), &mut extractions).unwrap();
    assert!(second.was_cached);
    assert_eq!(extractions, 1);
    assert_eq!(second.keypoints.len(), 2);
    assert_eq!(second.keypoints[1].octave, 2);
    let bytes: Vec<[u8; 64]> = second.descriptors.iter().map(|d| d.bytes).collect();
    assert_eq!(bytes, vec![[3u8; 64], [4u8; 64], [5u8; 64]]);
}

#[test]
fn lookup_outcomes() {
    assert!(matches!(on_lookup(Ok(None)), Ok(Lookup::Extract)));
    assert!(matches!(on_lookup(Ok(Some(vec![1, 2, 3]))), Ok(Lookup::Extract)));
    match on_lookup(Err(StorageError { message: "disk gone".to_string() })) {
        Err(e) => assert_eq!(e.message, "disk gone"),
        Ok(_) => panic!("a store failure must be passed on"),
    }
}

#[test]
fn decode_failure_is_not_fatal() {
    match on_extracted("/broken.jpg".to_string(), None) {
        Err(e) => assert_eq!(e.path, "/broken.jpg"),
        Ok(_) => panic!("nothing was extracted"),
    }
    let pending = on_extracted("/ok.jpg".to_string(), Some((vec![], vec![desc(1)]))).ok().unwrap();
    assert_eq!(pending.key, "/ok.jpg");
    assert!(!pending.bytes.is_empty());
    match on_stored(pending, Err(StorageError { message: "full".to_string() })) {
        Err(e) => assert_eq!(e.message, "full"),
        Ok(_) => panic!("a failed write must be passed on"),
    }
}

#[test]
fn worker_count_resolution() {
    assert_eq!(resolve_num_workers(0, 8), 8);
    assert_eq!(resolve_num_workers(3, 8), 3);
    assert!(num_workers(0) >= 1);
    assert_eq!(num_workers(5), 5);
}

fn names(n: usize) -> Vec<String> {
    (0..n).map(|i| format!("p{}", i)).collect()
}

#[test]
fn round_robin_partition() {
    let chunks = partition(&names(7), 3);
    assert_eq!(
        chunks,
        vec![
            vec!["p0".to_string(), "p3".to_string(), "p6".to_string()],
            vec!["p1".to_string(), "p4".to_string()],
            vec!["p2".to_string(), "p5".to_string()],
        ]
    );
    assert_eq!(partition(&names(2), 4).len(), 2);
    assert_eq!(partition(&names(0), 4).len(), 0);
}

#[test]
fn partition_covers_each_path_once() {
    let paths = names(23);
    let chunks = partition(&paths, 5);
    let mut all: Vec<String> = chunks.into_iter().flatten().collect();
    all.sort();
    let mut expected = paths.clone();
    expected.sort();
    assert_eq!(all, expected);
}

#[test]
fn failed_path_does_not_stop_the_run() {
    let ratio = RatioTest::new(13, 20).unwrap();
    let query = vec![desc(0), desc(1)];
    let mut results = RunResults::new();
    let ok = |v: u8| Ok(Features { keypoints: vec![], descriptors: vec![desc(v), desc(v + 50)], was_cached: false });
    results.record("A".to_string(), ok(0), ratio, &query);
    results.record("B".to_string(), Err(ExtractionError { path: "B".to_string() }), ratio, &query);
    results.record("C".to_string(), ok(100), ratio, &query);
    let got: Vec<(String, u32)> = results.matches.iter().map(|m| (m.path.clone(), m.num_matches)).collect();
    assert_eq!(got, vec![("A".to_string(), 2), ("C".to_string(), 2)]);
    assert_eq!(results.failed, vec!["B".to_string()]);
}

#[test]
fn merging_worker_results() {
    let ratio = RatioTest::new(1, 1).unwrap();
    let mut a = RunResults::new();
    a.record("x".to_string(), Err(ExtractionError { path: "x".to_string() }), ratio, &vec![]);
    let mut b = RunResults::new();
    b.record("y".to_string(), Ok(Features { keypoints: vec![], descriptors: vec![], was_cached: true }), ratio, &vec![]);
    b.record("z".to_string(), Err(ExtractionError { path: "z".to_string() }), ratio, &vec![]);
    a.merge(b);
    assert_eq!(a.failed, vec!["x".to_string(), "z".to_string()]);
    assert_eq!(a.matches.len(), 1);
    assert_eq!(a.matches[0].path, "y");
    assert_eq!(a.matches[0].num_matches, 0);
}
