use reverse_image_search::config::{check_query, Config, ConfigError};
use reverse_image_search::descriptor::Descriptor;
use reverse_image_search::dispatch::ImgInfo;
use reverse_image_search::files::{has_valid_extension, is_valid_file};
use reverse_image_search::outlier::{select_outliers, ZThreshold};

fn infos(counts: &[u32]) -> Vec<ImgInfo> {
    counts.iter().enumerate().map(|(i, &n)| ImgInfo { path: format!("img{}", i), num_matches: n }).collect()
}

fn pick(counts: &[u32], num: i16, den: u16) -> Vec<(String, u32)> {
    let t = ZThreshold::new(num, den).unwrap();
    select_outliers(&infos(counts), t).into_iter().map(|r| (r.path, r.num_matches)).collect()
}

#[test]
fn single_outlier_is_selected() {
    // mean 20, sample standard deviation 20: z = 1.5 for 50, -0.5 for the rest
    let counts = [10, 10, 10, 50];
    assert_eq!(pick(&counts, 0, 1), vec![("img3".to_string(), 50)]);
    assert_eq!(pick(&counts, 14, 10), vec![("img3".to_string(), 50)]);
    assert_eq!(pick(&counts, 15, 10), vec![]);
    assert_eq!(pick(&counts, -5, 10), vec![("img3".to_string(), 50)]);
}

#[test]
fn negative_threshold_orders_by_count() {
    let got = pick(&[10, 10, 10, 50], -6, 10);
    let counts: Vec<u32> = got.iter().map(|g| g.1).collect();
    assert_eq!(counts, vec![50, 10, 10, 10]);
}

#[test]
fn zero_deviation_selects_nothing() {
    assert_eq!(pick(&[5, 5, 5], 0, 1), vec![]);
    assert_eq!(pick(&[5, 5, 5], -3, 1), vec![]);
    assert_eq!(pick(&[7], -3, 1), vec![]);
    assert_eq!(pick(&[], 0, 1), vec![]);
}

#[test]
fn matches_come_in_descending_order() {
    // mean 31.875, standard deviation about 32.3: only 90, 60, 40 and 35 lie above it
    let got = pick(&[40, 0, 90, 0, 30, 35, 60, 0], 0, 1);
    let counts: Vec<u32> = got.iter().map(|g| g.1).collect();
    assert_eq!(counts, vec![90, 60, 40, 35]);
}

#[test]
fn threshold_needs_denominator() {
    assert!(ZThreshold::new(1, 0).is_none());
    let t = ZThreshold::new(-25, 10).unwrap();
    assert_eq!((t.num, t.den), (-25, 10));
}

#[test]
fn extension_filter_ignores_case() {
    let exts = vec![".png".to_string(), ".JPG".to_string()];
    assert!(is_valid_file(&exts, "/pics/Cat.PNG", true));
    assert!(is_valid_file(&exts, "/pics/dog.jpg", true));
    assert!(!is_valid_file(&exts, "/pics/dog.gif", true));
    assert!(!is_valid_file(&exts, "/pics/dir.png", false));
    assert!(!is_valid_file(&vec![], "/pics/a.png", true));
}

#[test]
fn extension_compared_as_given() {
    let exts = vec!["png".to_string()];
    assert!(has_valid_extension("a.png", &exts));
    assert!(!has_valid_extension("a.PNG", &exts));
    assert!(!has_valid_extension("ng", &exts));
}

#[test]
fn config_validation() {
    let make = |rn: u32, rd: u32, td: u16| {
        Config::new("c".to_string(), vec![], vec![], 2, td, 0, [64, 64], rn, rd, false)
    };
    assert!(matches!(make(0, 100, 1), Err(ConfigError::InvalidRatio)));
    assert!(matches!(make(101, 100, 1), Err(ConfigError::InvalidRatio)));
    assert!(matches!(make(65, 100, 0), Err(ConfigError::InvalidThreshold)));
    let c = make(65, 100, 1).ok().unwrap();
    assert_eq!((c.ratio_test_ratio.num, c.ratio_test_ratio.den), (65, 100));
    assert_eq!(c.resize_dimensions, [64, 64]);
}

#[test]
fn empty_query_is_refused() {
    assert_eq!(check_query(&vec![]), Err(ConfigError::EmptyQuery));
    assert_eq!(check_query(&vec![Descriptor { bytes: [0; 64] }]), Ok(()));
}
