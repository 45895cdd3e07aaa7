//! Search parameters and their validation.
use vstd::prelude::*;
use crate::descriptor::Descriptor;
use crate::matcher::{RatioTest, valid_ratio};
use crate::outlier::ZThreshold;

verus! {

/// Command-line arguments: the query image, if given, and the configuration
/// file.
pub struct ReverseImageSearchArgs {
    pub query_img_path: Option<String>,
    pub config_file_path: String,
}

/// A configuration value that the search cannot work with.
#[derive(Clone, Copy, Debug, PartialEq, Eq, Structural)]
pub enum ConfigError {
    /// The ratio-test ratio lies outside `(0, 1]`.
    InvalidRatio,
    /// The z-score threshold has a zero denominator.
    InvalidThreshold,
    /// The query image has no descriptors.
    EmptyQuery,
}

/// The tunable parameters of a search.
pub struct Config {
    pub cache_path: String,
    pub search_dirs_paths: Vec<String>,
    pub valid_file_extensions: Vec<String>,
    pub outlier_zscore_thresh: ZThreshold,
    pub num_workers: u32,
    pub resize_dimensions: [u32; 2],
    pub ratio_test_ratio: RatioTest,
    pub print_live_analysis_results: bool,
}

impl Config {
    /// Checks the ratio-test ratio `ratio_num / ratio_den` and the z-score
    /// threshold `thresh_num / thresh_den` and assembles the configuration.
    pub fn new(
        cache_path: String,
        search_dirs_paths: Vec<String>,
        valid_file_extensions: Vec<String>,
        thresh_num: i16,
        thresh_den: u16,
        num_workers: u32,
        resize_dimensions: [u32; 2],
        ratio_num: u32,
        ratio_den: u32,
        print_live_analysis_results: bool,
    ) -> (r: Result<Config, ConfigError>)
        ensures
            !valid_ratio(ratio_num, ratio_den) ==> r == Err::<Config, ConfigError>(
                ConfigError::InvalidRatio,
            ),
            valid_ratio(ratio_num, ratio_den) && thresh_den == 0 ==> r == Err::<Config, ConfigError>(
                ConfigError::InvalidThreshold,
            ),
            valid_ratio(ratio_num, ratio_den) && thresh_den > 0 ==> (r matches Ok(c) && c.cache_path
                == cache_path && c.search_dirs_paths == search_dirs_paths && c.valid_file_extensions
                == valid_file_extensions && c.outlier_zscore_thresh.num == thresh_num
                && c.outlier_zscore_thresh.den == thresh_den && c.num_workers == num_workers
                && c.resize_dimensions == resize_dimensions && c.ratio_test_ratio.num == ratio_num
                && c.ratio_test_ratio.den == ratio_den && c.print_live_analysis_results
                == print_live_analysis_results),
    {
        let ratio_test_ratio = match RatioTest::new(ratio_num, ratio_den) {
            Some(r) => r,
            None => {
                return Err(ConfigError::InvalidRatio);
            },
        };
        let outlier_zscore_thresh = match ZThreshold::new(thresh_num, thresh_den) {
            Some(t) => t,
            None => {
                return Err(ConfigError::InvalidThreshold);
            },
        };
        Ok(
            Config {
                cache_path,
                search_dirs_paths,
                valid_file_extensions,
                outlier_zscore_thresh,
                num_workers,
                resize_dimensions,
                ratio_test_ratio,
                print_live_analysis_results,
            },
        )
    }
}

/// Refuses a query image without descriptors, which would match nothing.
pub fn check_query(query: &Vec<Descriptor>) -> (r: Result<(), ConfigError>)
    ensures
        query@.len() == 0 <==> r is Err,
        r matches Err(e) ==> e == ConfigError::EmptyQuery,
{
    if query.len() == 0 {
        Err(ConfigError::EmptyQuery)
    } else {
        Ok(())
    }
}

} // verus!
