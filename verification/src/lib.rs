//! Entropy analysis engine: byte- and bit-level Shannon entropy over file
//! contents, sliding-window analysis, aggregate statistics and comparisons.
//!
//! Entropy values are binary fixed-point numbers: a value `e` stands for
//! `e / ENTROPY_SCALE` bits, with `ENTROPY_SCALE = 2^16`. On that grid the
//! computation is exact where the mathematics is exact — a single repeated
//! byte has entropy 0, a uniform byte distribution has entropy 8 — and
//! rounded down bit by bit everywhere else.
//!
//! The crate does no I/O: callers read files and hand bytes in, and render
//! the result structures that come back.

pub mod entropy;
pub mod numeric;
pub mod analysis;
pub mod statistics;
pub mod comparison;
pub mod config;
pub mod output;
pub mod visualization;

pub use entropy::{calculate_byte_level_entropy, calculate_bit_level_entropy, count_bits_set};
pub use entropy::{BUFFER_SIZE, ENTROPY_SCALE, BYTE_ENTROPY_CAP, BIT_ENTROPY_CAP};
pub use analysis::{FileAnalysis, SlidingWindowResult, ByteCounter, EntropyMode};
pub use analysis::{analyze_counts, analyze_data, analyze_sliding_window};
pub use analysis::{analysis_open_error, analysis_read_error};
pub use analysis::{WindowSummary, summarize_windows};
pub use output::{OutputFormat, OutputFormatter};
pub use output::{entropy_of_file_fixed, entropy_per_byte_bytes_fixed, delta_compressible_fixed,
    coding_ratio_fixed};
pub use statistics::{calculate_aggregate_statistics, AggregateStatistics};
pub use comparison::{compare_files, compare_multiple_files, ComparisonResult, BaselineComparison};
pub use config::{Config, OutputConfig, AnalysisConfig, VisualizationConfig, RunOptions};
pub use config::{apply_config_to_args, extension_matches, default_format, default_true,
    default_frequency_top_n};
pub use visualization::{bin_byte_counts, bar_length, top_frequent_bytes};
pub use visualization::{HISTOGRAM_WIDTH, HISTOGRAM_HEIGHT};
