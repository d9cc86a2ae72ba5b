use entropy_calculator::ENTROPY_SCALE;
use entropy_calculator::ByteCounter;
use entropy_calculator::EntropyMode;
use entropy_calculator::analysis_open_error;
use entropy_calculator::analysis_read_error;
use entropy_calculator::analyze_counts;
use entropy_calculator::analyze_data;
use entropy_calculator::analyze_sliding_window;

#[test]
fn four_identical_bytes_have_entropy_zero_and_size_four() {
    let data = vec![0x41u8, 0x41, 0x41, 0x41];
    let r = analyze_data("AAAA".to_string(), &data, EntropyMode::ByteLevel);
    assert_eq!(r.filename, "AAAA");
    assert_eq!(r.size_bytes, 4);
    assert_eq!(r.byte_entropy, Some(0));
    assert_eq!(r.bit_entropy, None);
    assert_eq!(r.error, None);
}

#[test]
fn four_distinct_bytes_have_entropy_two_bits() {
    let data = vec![0u8, 1, 2, 3];
    let r = analyze_data("f".to_string(), &data, EntropyMode::ByteLevel);
    assert_eq!(r.byte_entropy, Some(2 * ENTROPY_SCALE));
    assert_eq!(r.size_bytes, 4);
}

#[test]
fn bit_level_mode_fills_only_the_bit_entropy() {
    let data = vec![0x00u8, 0x01];
    let r = analyze_data("f".to_string(), &data, EntropyMode::BitLevel);
    assert_eq!(r.bit_entropy, Some(ENTROPY_SCALE));
    assert_eq!(r.byte_entropy, None);
    assert_eq!(r.error, None);
}

#[test]
fn empty_data_is_an_explicit_error_not_zero_entropy() {
    let data: Vec<u8> = Vec::new();
    let r = analyze_data("empty".to_string(), &data, EntropyMode::ByteLevel);
    assert_eq!(r.size_bytes, 0);
    assert_eq!(r.byte_entropy, None);
    assert_eq!(r.bit_entropy, None);
    assert_eq!(r.error, Some("File is empty".to_string()));
}

#[test]
fn streaming_chunks_equals_analyzing_the_whole_data() {
    let mut counter = ByteCounter::new();
    counter.add_chunk(&[0x41, 0x41]);
    counter.add_chunk(&[0x42]);
    counter.add_chunk(&[]);
    counter.add_chunk(&[0x43]);
    let streamed = analyze_counts("f".to_string(), &counter, EntropyMode::ByteLevel);
    let whole = analyze_data(
        "f".to_string(),
        &vec![0x41, 0x41, 0x42, 0x43],
        EntropyMode::ByteLevel,
    );
    assert_eq!(streamed.size_bytes, whole.size_bytes);
    assert_eq!(streamed.byte_entropy, whole.byte_entropy);
    assert_eq!(streamed.byte_entropy, Some(3 * ENTROPY_SCALE / 2));
}

#[test]
fn empty_counter_finishes_as_empty_file_error() {
    let counter = ByteCounter::new();
    let r = analyze_counts("f".to_string(), &counter, EntropyMode::ByteLevel);
    assert_eq!(r.error, Some("File is empty".to_string()));
    assert_eq!(r.size_bytes, 0);
}

#[test]
fn open_error_analysis_has_zero_size_and_the_message() {
    let r = analysis_open_error("gone".to_string(), "Error opening file: missing".to_string());
    assert_eq!(r.filename, "gone");
    assert_eq!(r.size_bytes, 0);
    assert_eq!(r.byte_entropy, None);
    assert_eq!(r.bit_entropy, None);
    assert_eq!(r.error, Some("Error opening file: missing".to_string()));
}

#[test]
fn read_error_analysis_keeps_the_partial_size() {
    let r = analysis_read_error("f".to_string(), 42, "Error reading file: boom".to_string());
    assert_eq!(r.size_bytes, 42);
    assert_eq!(r.error, Some("Error reading file: boom".to_string()));
    assert_eq!(r.byte_entropy, None);
}

#[test]
fn window_size_zero_fails_before_anything_else() {
    let data = vec![1u8, 2, 3];
    let r = analyze_sliding_window(&data, 0);
    assert_eq!(r.unwrap_err(), "Window size must be greater than 0");
    let empty: Vec<u8> = Vec::new();
    let r = analyze_sliding_window(&empty, 0);
    assert_eq!(r.unwrap_err(), "Window size must be greater than 0");
}

#[test]
fn sliding_window_of_empty_data_fails() {
    let empty: Vec<u8> = Vec::new();
    let r = analyze_sliding_window(&empty, 4);
    assert_eq!(r.unwrap_err(), "File is empty");
}

#[test]
fn sliding_window_counts_and_positions() {
    // 10 bytes, window 4: windows of 4, 4 and a trailing remainder of 2
    let data = vec![0u8, 0, 0, 0, 1, 1, 1, 1, 2, 3];
    let ws = analyze_sliding_window(&data, 4).unwrap();
    assert_eq!(ws.len(), 3);
    assert_eq!(ws[0].position, 0);
    assert_eq!(ws[0].chunk_size, 4);
    assert_eq!(ws[0].entropy, 0);
    assert_eq!(ws[1].position, 4);
    assert_eq!(ws[1].chunk_size, 4);
    assert_eq!(ws[1].entropy, 0);
    assert_eq!(ws[2].position, 8);
    assert_eq!(ws[2].chunk_size, 2);
    assert_eq!(ws[2].entropy, ENTROPY_SCALE);
}

#[test]
fn sliding_window_with_exact_division_has_no_remainder_window() {
    let data = vec![7u8; 12];
    let ws = analyze_sliding_window(&data, 4).unwrap();
    assert_eq!(ws.len(), 3);
    for (i, w) in ws.iter().enumerate() {
        assert_eq!(w.position, (i as u64) * 4);
        assert_eq!(w.chunk_size, 4);
        assert_eq!(w.entropy, 0);
    }
}

#[test]
fn window_summary_of_an_empty_run_is_absent() {
    assert!(entropy_calculator::summarize_windows(&Vec::new()).is_none());
}

#[test]
fn window_summary_gives_exact_min_max_and_mean() {
    // windows of entropy 0.0, 1.0 and 1.0 bits: min 0, max 1.0, mean
    // floor(2^17 / 3) on the fixed-point grid
    let data = vec![0u8, 0, 0, 0, 0, 1, 0, 1, 2, 3];
    let ws = analyze_sliding_window(&data, 4).unwrap();
    let summary = entropy_calculator::summarize_windows(&ws).unwrap();
    assert_eq!(summary.min_entropy, 0);
    assert_eq!(summary.max_entropy, ENTROPY_SCALE);
    assert_eq!(summary.avg_entropy, 2 * ENTROPY_SCALE / 3);
}

#[test]
fn sliding_window_larger_than_data_is_one_window() {
    let data = vec![0u8, 1, 2, 3];
    let ws = analyze_sliding_window(&data, 100).unwrap();
    assert_eq!(ws.len(), 1);
    assert_eq!(ws[0].position, 0);
    assert_eq!(ws[0].chunk_size, 4);
    assert_eq!(ws[0].entropy, 2 * ENTROPY_SCALE);
}
