use entropy_calculator::ENTROPY_SCALE;
use entropy_calculator::FileAnalysis;
use entropy_calculator::compare_files;
use entropy_calculator::compare_multiple_files;

fn with_entropy(name: &str, size: u64, entropy: Option<u64>) -> FileAnalysis {
    match entropy {
        Some(e) => FileAnalysis {
            filename: name.to_string(),
            size_bytes: size,
            byte_entropy: Some(e),
            bit_entropy: None,
            error: None,
        },
        None => FileAnalysis {
            filename: name.to_string(),
            size_bytes: size,
            byte_entropy: None,
            bit_entropy: None,
            error: Some("Error reading file: boom".to_string()),
        },
    }
}

#[test]
fn comparing_four_bits_against_six_bits_gives_plus_two_and_fifty_percent() {
    let a = with_entropy("a", 100, Some(4 * ENTROPY_SCALE));
    let b = with_entropy("b", 150, Some(6 * ENTROPY_SCALE));
    let c = compare_files(&a, &b);
    assert_eq!(c.file1, "a");
    assert_eq!(c.file2, "b");
    assert_eq!(c.entropy1, Some(4 * ENTROPY_SCALE));
    assert_eq!(c.entropy2, Some(6 * ENTROPY_SCALE));
    assert_eq!(c.entropy_diff, Some(2 * ENTROPY_SCALE as i64));
    // +50 percent, on the fixed-point grid
    assert_eq!(c.entropy_diff_percent, Some(50 * ENTROPY_SCALE as i64));
    assert_eq!(c.size_diff, 50);
    assert_eq!(c.size_diff_percent, 50 * ENTROPY_SCALE as i128);
}

#[test]
fn comparing_downward_gives_negative_deltas() {
    let a = with_entropy("a", 200, Some(6 * ENTROPY_SCALE));
    let b = with_entropy("b", 100, Some(3 * ENTROPY_SCALE));
    let c = compare_files(&a, &b);
    assert_eq!(c.entropy_diff, Some(-(3 * ENTROPY_SCALE as i64)));
    assert_eq!(c.entropy_diff_percent, Some(-(50 * ENTROPY_SCALE as i64)));
    assert_eq!(c.size_diff, -100);
    assert_eq!(c.size_diff_percent, -(50 * ENTROPY_SCALE as i128));
}

#[test]
fn pairwise_percentage_is_absent_for_zero_baseline_entropy() {
    let a = with_entropy("a", 100, Some(0));
    let b = with_entropy("b", 100, Some(2 * ENTROPY_SCALE));
    let c = compare_files(&a, &b);
    assert_eq!(c.entropy_diff, Some(2 * ENTROPY_SCALE as i64));
    assert_eq!(c.entropy_diff_percent, None);
}

#[test]
fn pairwise_deltas_are_absent_when_an_entropy_is_missing() {
    let a = with_entropy("a", 100, None);
    let b = with_entropy("b", 100, Some(2 * ENTROPY_SCALE));
    let c = compare_files(&a, &b);
    assert_eq!(c.entropy_diff, None);
    assert_eq!(c.entropy_diff_percent, None);
}

#[test]
fn pairwise_size_percentage_is_zero_for_zero_first_size() {
    let a = with_entropy("a", 0, Some(ENTROPY_SCALE));
    let b = with_entropy("b", 100, Some(ENTROPY_SCALE));
    let c = compare_files(&a, &b);
    assert_eq!(c.size_diff, 100);
    assert_eq!(c.size_diff_percent, 0);
}

#[test]
fn baseline_index_out_of_range_is_an_error() {
    let rs = vec![
        with_entropy("a", 10, Some(ENTROPY_SCALE)),
        with_entropy("b", 10, Some(ENTROPY_SCALE)),
    ];
    let r = compare_multiple_files(&rs, 2);
    assert_eq!(r.unwrap_err(), "Baseline index out of range");
    let r = compare_multiple_files(&Vec::new(), 0);
    assert!(r.is_err());
}

#[test]
fn baseline_comparison_reports_each_other_file() {
    let rs = vec![
        with_entropy("base", 10, Some(4 * ENTROPY_SCALE)),
        with_entropy("up", 10, Some(6 * ENTROPY_SCALE)),
        with_entropy("missing", 10, None),
        with_entropy("same", 10, Some(4 * ENTROPY_SCALE)),
    ];
    let rows = compare_multiple_files(&rs, 0).unwrap();
    assert_eq!(rows.len(), 3);
    assert_eq!(rows[0].filename, "up");
    assert_eq!(rows[0].entropy, Some(6 * ENTROPY_SCALE));
    assert_eq!(rows[0].entropy_diff, Some(2 * ENTROPY_SCALE as i64));
    assert_eq!(rows[0].entropy_diff_percent, Some(50 * ENTROPY_SCALE as i64));
    assert_eq!(rows[1].filename, "missing");
    assert_eq!(rows[1].entropy, None);
    assert_eq!(rows[1].entropy_diff, None);
    assert_eq!(rows[1].entropy_diff_percent, None);
    assert_eq!(rows[2].filename, "same");
    assert_eq!(rows[2].entropy_diff, Some(0));
    assert_eq!(rows[2].entropy_diff_percent, Some(0));
}

#[test]
fn baseline_with_zero_entropy_defaults_percentages_to_zero() {
    let rs = vec![
        with_entropy("base", 10, Some(0)),
        with_entropy("other", 10, Some(2 * ENTROPY_SCALE)),
    ];
    let rows = compare_multiple_files(&rs, 0).unwrap();
    assert_eq!(rows.len(), 1);
    assert_eq!(rows[0].entropy_diff, Some(2 * ENTROPY_SCALE as i64));
    assert_eq!(rows[0].entropy_diff_percent, Some(0));
}

#[test]
fn baseline_without_entropy_produces_no_rows() {
    let rs = vec![
        with_entropy("base", 10, None),
        with_entropy("other", 10, Some(2 * ENTROPY_SCALE)),
    ];
    let rows = compare_multiple_files(&rs, 0).unwrap();
    assert_eq!(rows.len(), 0);
}

#[test]
fn baseline_in_the_middle_keeps_batch_order() {
    let rs = vec![
        with_entropy("first", 10, Some(ENTROPY_SCALE)),
        with_entropy("base", 10, Some(2 * ENTROPY_SCALE)),
        with_entropy("last", 10, Some(3 * ENTROPY_SCALE)),
    ];
    let rows = compare_multiple_files(&rs, 1).unwrap();
    assert_eq!(rows.len(), 2);
    assert_eq!(rows[0].filename, "first");
    assert_eq!(rows[0].entropy_diff, Some(-(ENTROPY_SCALE as i64)));
    assert_eq!(rows[1].filename, "last");
    assert_eq!(rows[1].entropy_diff, Some(ENTROPY_SCALE as i64));
}
