use entropy_calculator::ENTROPY_SCALE;
use entropy_calculator::FileAnalysis;
use entropy_calculator::calculate_aggregate_statistics;

fn valid(name: &str, size: u64, entropy: u64) -> FileAnalysis {
    FileAnalysis {
        filename: name.to_string(),
        size_bytes: size,
        byte_entropy: Some(entropy),
        bit_entropy: None,
        error: None,
    }
}

fn failed(name: &str) -> FileAnalysis {
    FileAnalysis {
        filename: name.to_string(),
        size_bytes: 0,
        byte_entropy: None,
        bit_entropy: None,
        error: Some("Error opening file: missing".to_string()),
    }
}

#[test]
fn empty_batch_has_absent_distribution_fields() {
    let stats = calculate_aggregate_statistics(&Vec::new());
    assert_eq!(stats.total_files, 0);
    assert_eq!(stats.total_bytes, 0);
    assert_eq!(stats.entropy_min, None);
    assert_eq!(stats.entropy_max, None);
    assert_eq!(stats.entropy_avg, None);
    assert_eq!(stats.entropy_stddev, None);
    assert_eq!(stats.entropy_median, None);
    assert_eq!(stats.entropy_p25, None);
    assert_eq!(stats.entropy_p75, None);
    assert_eq!(stats.entropy_p90, None);
    assert_eq!(stats.entropy_p95, None);
    assert_eq!(stats.entropy_p99, None);
}

#[test]
fn bit_level_successes_count_toward_total_bytes_but_not_the_distribution() {
    // an error-free bit-level analysis has no byte-level entropy: its size
    // still counts toward the total, but no distribution field appears
    let bit_only = FileAnalysis {
        filename: "bits".to_string(),
        size_bytes: 5,
        byte_entropy: None,
        bit_entropy: Some(ENTROPY_SCALE),
        error: None,
    };
    let stats = calculate_aggregate_statistics(&vec![bit_only.clone()]);
    assert_eq!(stats.total_files, 1);
    assert_eq!(stats.total_bytes, 5);
    assert_eq!(stats.entropy_min, None);
    assert_eq!(stats.entropy_avg, None);
    assert_eq!(stats.entropy_stddev, None);
    // mixed with byte-level entries, both sizes are summed while only the
    // byte-level entropy enters the distribution
    let stats = calculate_aggregate_statistics(&vec![
        bit_only,
        valid("a", 100, 3 * ENTROPY_SCALE),
        failed("b"),
    ]);
    assert_eq!(stats.total_files, 3);
    assert_eq!(stats.total_bytes, 105);
    assert_eq!(stats.entropy_min, Some(3 * ENTROPY_SCALE));
    assert_eq!(stats.entropy_max, Some(3 * ENTROPY_SCALE));
}

#[test]
fn batch_of_only_failures_has_absent_fields_but_counts_the_files() {
    let stats = calculate_aggregate_statistics(&vec![failed("a"), failed("b")]);
    assert_eq!(stats.total_files, 2);
    assert_eq!(stats.total_bytes, 0);
    assert_eq!(stats.entropy_min, None);
    assert_eq!(stats.entropy_stddev, None);
}

#[test]
fn single_valid_value_pins_min_max_mean_median_but_not_stddev() {
    let v = 3 * ENTROPY_SCALE;
    let stats = calculate_aggregate_statistics(&vec![valid("a", 10, v)]);
    assert_eq!(stats.total_files, 1);
    assert_eq!(stats.total_bytes, 10);
    assert_eq!(stats.entropy_min, Some(v));
    assert_eq!(stats.entropy_max, Some(v));
    assert_eq!(stats.entropy_avg, Some(v));
    assert_eq!(stats.entropy_median, Some(v));
    assert_eq!(stats.entropy_stddev, None);
    assert_eq!(stats.entropy_p25, Some(v));
    assert_eq!(stats.entropy_p75, Some(v));
    assert_eq!(stats.entropy_p90, Some(v));
    assert_eq!(stats.entropy_p95, Some(v));
    assert_eq!(stats.entropy_p99, Some(v));
}

#[test]
fn three_values_give_exact_mean_median_and_stddev() {
    // entropies 2.0, 4.0, 6.0 bits: mean 4.0, median 4.0, sample standard
    // deviation exactly 2.0
    let rs = vec![
        valid("a", 100, 2 * ENTROPY_SCALE),
        valid("b", 200, 6 * ENTROPY_SCALE),
        valid("c", 300, 4 * ENTROPY_SCALE),
    ];
    let stats = calculate_aggregate_statistics(&rs);
    assert_eq!(stats.total_files, 3);
    assert_eq!(stats.total_bytes, 600);
    assert_eq!(stats.entropy_min, Some(2 * ENTROPY_SCALE));
    assert_eq!(stats.entropy_max, Some(6 * ENTROPY_SCALE));
    assert_eq!(stats.entropy_avg, Some(4 * ENTROPY_SCALE));
    assert_eq!(stats.entropy_median, Some(4 * ENTROPY_SCALE));
    assert_eq!(stats.entropy_stddev, Some(2 * ENTROPY_SCALE));
    // nearest-rank indices over a sorted sample of three
    assert_eq!(stats.entropy_p25, Some(2 * ENTROPY_SCALE));
    assert_eq!(stats.entropy_p75, Some(4 * ENTROPY_SCALE));
    assert_eq!(stats.entropy_p90, Some(4 * ENTROPY_SCALE));
    assert_eq!(stats.entropy_p95, Some(4 * ENTROPY_SCALE));
    assert_eq!(stats.entropy_p99, Some(4 * ENTROPY_SCALE));
}

#[test]
fn failed_entries_are_excluded_from_the_distribution() {
    let rs = vec![
        valid("a", 100, 2 * ENTROPY_SCALE),
        failed("b"),
        valid("c", 50, 4 * ENTROPY_SCALE),
    ];
    let stats = calculate_aggregate_statistics(&rs);
    assert_eq!(stats.total_files, 3);
    assert_eq!(stats.total_bytes, 150);
    assert_eq!(stats.entropy_min, Some(2 * ENTROPY_SCALE));
    assert_eq!(stats.entropy_max, Some(4 * ENTROPY_SCALE));
    assert_eq!(stats.entropy_avg, Some(3 * ENTROPY_SCALE));
    // two middle values averaged for an even count
    assert_eq!(stats.entropy_median, Some(3 * ENTROPY_SCALE));
}

#[test]
fn percentiles_are_monotone_for_a_spread_sample() {
    let mut rs = Vec::new();
    for i in 0..10u64 {
        rs.push(valid("f", 10, (10 - i) * ENTROPY_SCALE / 2));
    }
    let stats = calculate_aggregate_statistics(&rs);
    let p25 = stats.entropy_p25.unwrap();
    let p75 = stats.entropy_p75.unwrap();
    let p90 = stats.entropy_p90.unwrap();
    let p95 = stats.entropy_p95.unwrap();
    let p99 = stats.entropy_p99.unwrap();
    assert!(p25 <= p75);
    assert!(p75 <= p90);
    assert!(p90 <= p95);
    assert!(p95 <= p99);
    // ten sorted values 0.5 .. 5.0: index 25*9/100 = 2, 75*9/100 = 6
    assert_eq!(p25, 3 * ENTROPY_SCALE / 2);
    assert_eq!(p75, 7 * ENTROPY_SCALE / 2);
}
