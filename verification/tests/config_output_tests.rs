use entropy_calculator::ENTROPY_SCALE;
use entropy_calculator::AnalysisConfig;
use entropy_calculator::Config;
use entropy_calculator::OutputConfig;
use entropy_calculator::OutputFormat;
use entropy_calculator::OutputFormatter;
use entropy_calculator::RunOptions;
use entropy_calculator::VisualizationConfig;
use entropy_calculator::apply_config_to_args;
use entropy_calculator::bar_length;
use entropy_calculator::bin_byte_counts;
use entropy_calculator::coding_ratio_fixed;
use entropy_calculator::default_format;
use entropy_calculator::default_frequency_top_n;
use entropy_calculator::default_true;
use entropy_calculator::delta_compressible_fixed;
use entropy_calculator::entropy_of_file_fixed;
use entropy_calculator::entropy_per_byte_bytes_fixed;
use entropy_calculator::extension_matches;
use entropy_calculator::top_frequent_bytes;

fn base_options() -> RunOptions {
    RunOptions {
        bit_level: false,
        recursive: false,
        extension: None,
        no_progress: false,
        threads: 0,
        histogram: false,
        frequency: false,
        frequency_top: 10,
    }
}

#[test]
fn defaults_match_the_documented_values() {
    assert_eq!(default_format(), "text");
    assert!(default_true());
    assert_eq!(default_frequency_top_n(), 10);
    let c = Config::default();
    assert_eq!(c.output.format, "text");
    assert!(c.output.show_progress);
    assert_eq!(c.output.threads, 0);
    assert!(!c.analysis.bit_level);
    assert!(!c.analysis.recursive);
    assert_eq!(c.analysis.extension, None);
    assert!(c.visualization.show_histogram);
    assert!(c.visualization.show_frequency_chart);
    assert_eq!(c.visualization.frequency_top_n, 10);
}

#[test]
fn config_fills_in_unset_options() {
    let config = Config {
        output: OutputConfig { format: "json".to_string(), show_progress: false, threads: 4 },
        analysis: AnalysisConfig {
            bit_level: true,
            recursive: true,
            extension: Some(".bin".to_string()),
        },
        visualization: VisualizationConfig {
            show_histogram: false,
            show_frequency_chart: false,
            frequency_top_n: 5,
        },
    };
    let mut args = base_options();
    apply_config_to_args(&config, &mut args);
    assert!(args.bit_level);
    assert!(args.recursive);
    assert_eq!(args.extension, Some(".bin".to_string()));
    assert!(args.no_progress);
    assert_eq!(args.threads, 4);
    assert_eq!(args.frequency_top, 5);
}

#[test]
fn explicit_command_line_settings_win_over_the_config() {
    let config = Config {
        output: OutputConfig { format: "json".to_string(), show_progress: true, threads: 4 },
        analysis: AnalysisConfig {
            bit_level: false,
            recursive: false,
            extension: Some(".bin".to_string()),
        },
        visualization: VisualizationConfig {
            show_histogram: false,
            show_frequency_chart: false,
            frequency_top_n: 5,
        },
    };
    let mut args = base_options();
    args.bit_level = true;
    args.extension = Some(".txt".to_string());
    args.threads = 8;
    args.frequency_top = 3;
    apply_config_to_args(&config, &mut args);
    assert!(args.bit_level);
    assert_eq!(args.extension, Some(".txt".to_string()));
    assert_eq!(args.threads, 8);
    assert_eq!(args.frequency_top, 3);
}

#[test]
fn extension_filter_ignores_leading_dots() {
    assert!(extension_matches(&b"txt".to_vec(), &b".txt".to_vec()));
    assert!(extension_matches(&b"txt".to_vec(), &b"txt".to_vec()));
    assert!(extension_matches(&b"txt".to_vec(), &b"...txt".to_vec()));
    assert!(!extension_matches(&b"bin".to_vec(), &b".txt".to_vec()));
    assert!(!extension_matches(&b"txt".to_vec(), &b".txtx".to_vec()));
    assert!(extension_matches(&b"".to_vec(), &b".".to_vec()));
}

#[test]
fn formatter_keeps_its_format() {
    let f = OutputFormatter::new(OutputFormat::Json);
    assert!(matches!(f.format, OutputFormat::Json));
}

#[test]
fn derived_metrics_for_four_bits_over_a_hundred_bytes() {
    let e = 4 * ENTROPY_SCALE;
    // 400 bits of information
    assert_eq!(entropy_of_file_fixed(e, 100), 400 * ENTROPY_SCALE as u128);
    // half a byte per byte
    assert_eq!(entropy_per_byte_bytes_fixed(e), ENTROPY_SCALE / 2);
    // 50 bytes theoretically compressible
    assert_eq!(delta_compressible_fixed(e, 100), 50 * ENTROPY_SCALE as u128);
    // coding ratio 2.0
    assert_eq!(coding_ratio_fixed(e), Some(2 * ENTROPY_SCALE));
    // incompressible data has no finite ratio
    assert_eq!(coding_ratio_fixed(0), None);
}

#[test]
fn histogram_bins_pool_sixteen_values_each() {
    let mut counts = vec![0u64; 256];
    counts[0] = 5;
    counts[15] = 2;
    counts[16] = 7;
    counts[255] = 1;
    let bins = bin_byte_counts(&counts);
    assert_eq!(bins.len(), 16);
    assert_eq!(bins[0], 7);
    assert_eq!(bins[1], 7);
    assert_eq!(bins[15], 1);
    for b in 2..15 {
        assert_eq!(bins[b], 0);
    }
}

#[test]
fn bar_lengths_scale_linearly_and_cap_at_the_width() {
    assert_eq!(bar_length(0, 0, 60), 0);
    assert_eq!(bar_length(5, 10, 60), 30);
    assert_eq!(bar_length(10, 10, 60), 60);
    assert_eq!(bar_length(1, 3, 60), 20);
}

#[test]
fn top_frequent_bytes_ranks_by_count() {
    let mut counts = vec![0u64; 256];
    counts[65] = 10;
    counts[66] = 7;
    counts[67] = 3;
    let top = top_frequent_bytes(&counts, 2);
    assert_eq!(top.len(), 2);
    assert_eq!(top[0], (65, 10));
    assert_eq!(top[1], (66, 7));
    let all = top_frequent_bytes(&counts, 10);
    assert_eq!(all.len(), 3);
    assert_eq!(all[2], (67, 3));
    let none = top_frequent_bytes(&counts, 0);
    assert_eq!(none.len(), 0);
}
