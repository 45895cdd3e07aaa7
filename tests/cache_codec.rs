use reverse_image_search::codec::{CacheEntry, MyKeyPoint, ENTRY_TAG, KEYPOINT_BYTES};
use reverse_image_search::descriptor::Descriptor;

fn kp(seed: u32) -> MyKeyPoint {
    MyKeyPoint {
        x_bits: 1.5f32.to_bits() + seed,
        y_bits: 2.25f32.to_bits(),
        response_bits: 0.001f32.to_bits(),
        size_bits: 4.0f32.to_bits(),
        octave: 3 + seed as u64,
        class_id: u64::MAX,
        angle_bits: (-0.5f32).to_bits(),
    }
}

fn entry(path: &str) -> CacheEntry {
    let mut d = Descriptor { bytes: [0; 64] };
    for (i, b) in d.bytes.iter_mut().enumerate() {
        *b = (i * 7) as u8;
    }
    CacheEntry {
        path: path.to_string(),
        keypoints: vec![kp(0), kp(1)],
        descriptors: vec![d, Descriptor { bytes: [255; 64] }],
    }
}

fn same(a: &CacheEntry, b: &CacheEntry) -> bool {
    a.path == b.path
        && a.keypoints.len() == b.keypoints.len()
        && a.keypoints.iter().zip(b.keypoints.iter()).all(|(x, y)| {
            x.x_bits == y.x_bits
                && x.y_bits == y.y_bits
                && x.response_bits == y.response_bits
                && x.size_bits == y.size_bits
                && x.octave == y.octave
                && x.class_id == y.class_id
                && x.angle_bits == y.angle_bits
        })
        && a.descriptors.len() == b.descriptors.len()
        && a.descriptors.iter().zip(b.descriptors.iter()).all(|(x, y)| x.bytes == y.bytes)
}

#[test]
fn cache_entry_round_trip() {
    let e = entry("/home/me/pictures/cat.png");
    let bytes = e.serialize();
    let back = CacheEntry::deserialize(&bytes).unwrap();
    assert!(same(&e, &back));
    assert_eq!(f32::from_bits(back.keypoints[0].y_bits), 2.25);
}

#[test]
fn round_trip_keeps_non_ascii_path() {
    let e = entry("/tmp/фото/été.jpg");
    let back = CacheEntry::deserialize(&e.serialize()).unwrap();
    assert!(same(&e, &back));
}

#[test]
fn encoding_layout() {
    let e = CacheEntry { path: "a".to_string(), keypoints: vec![], descriptors: vec![] };
    let bytes = e.serialize();
    let mut expected = ENTRY_TAG.to_le_bytes().to_vec();
    expected.extend_from_slice(&1u64.to_le_bytes());
    expected.push(b'a');
    expected.extend_from_slice(&0u64.to_le_bytes());
    expected.extend_from_slice(&0u64.to_le_bytes());
    assert_eq!(bytes, expected);
    assert_eq!(&bytes[0..4], b"RIS1");
    let full = entry("p").serialize();
    assert_eq!(full.len(), 4 + 8 + 1 + 8 + 2 * KEYPOINT_BYTES + 8 + 2 * 64);
}

#[test]
fn malformed_entries_are_refused() {
    let bytes = entry("x.png").serialize();
    assert!(CacheEntry::deserialize(&bytes[..bytes.len() - 1].to_vec()).is_none());
    let mut longer = bytes.clone();
    longer.push(0);
    assert!(CacheEntry::deserialize(&longer).is_none());
    let mut wrong_tag = bytes.clone();
    wrong_tag[0] = b'X';
    assert!(CacheEntry::deserialize(&wrong_tag).is_none());
    assert!(CacheEntry::deserialize(&vec![]).is_none());
    // a path that is not UTF-8
    let mut bad_path = ENTRY_TAG.to_le_bytes().to_vec();
    bad_path.extend_from_slice(&1u64.to_le_bytes());
    bad_path.push(0xff);
    bad_path.extend_from_slice(&0u64.to_le_bytes());
    bad_path.extend_from_slice(&0u64.to_le_bytes());
    assert!(CacheEntry::deserialize(&bad_path).is_none());
}

#[test]
fn keypoint_needs_all_its_bytes() {
    let mut out = Vec::new();
    kp(5).serialize(&mut out);
    assert_eq!(out.len(), KEYPOINT_BYTES);
    assert_eq!(&out[0..4], &(1.5f32.to_bits() + 5).to_le_bytes());
    assert_eq!(&out[16..24], &8u64.to_le_bytes());
    let k = MyKeyPoint::deserialize(&out, 0).unwrap();
    assert_eq!(k.octave, 8);
    assert_eq!(k.class_id, u64::MAX);
    assert!(MyKeyPoint::deserialize(&out, 1).is_none());
    assert!(MyKeyPoint::deserialize(&out, 100).is_none());
}
