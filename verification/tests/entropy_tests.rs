use entropy_calculator::ENTROPY_SCALE;
use entropy_calculator::BYTE_ENTROPY_CAP;
use entropy_calculator::BIT_ENTROPY_CAP;
use entropy_calculator::calculate_bit_level_entropy;
use entropy_calculator::calculate_byte_level_entropy;
use entropy_calculator::count_bits_set;

fn table_of(data: &[u8]) -> (Vec<u64>, u64) {
    let mut counts = vec![0u64; 256];
    for &b in data {
        counts[b as usize] += 1;
    }
    (counts, data.len() as u64)
}

#[test]
fn count_bits_set_values() {
    assert_eq!(count_bits_set(0x00), 0);
    assert_eq!(count_bits_set(0x01), 1);
    assert_eq!(count_bits_set(0x80), 1);
    assert_eq!(count_bits_set(0xa5), 4);
    assert_eq!(count_bits_set(0xff), 8);
}

#[test]
fn byte_entropy_of_empty_table_is_zero() {
    let counts = vec![0u64; 256];
    assert_eq!(calculate_byte_level_entropy(&counts, 0), 0);
    assert_eq!(calculate_bit_level_entropy(&counts, 0), 0);
}

#[test]
fn byte_entropy_of_identical_bytes_is_exactly_zero() {
    let (counts, total) = table_of(&[0x41; 4]);
    assert_eq!(calculate_byte_level_entropy(&counts, total), 0);
    let (counts, total) = table_of(&[0x07; 7]);
    assert_eq!(calculate_byte_level_entropy(&counts, total), 0);
    let (counts, total) = table_of(&[0x00; 1000]);
    assert_eq!(calculate_byte_level_entropy(&counts, total), 0);
}

#[test]
fn byte_entropy_of_four_distinct_symbols_is_exactly_two_bits() {
    let (counts, total) = table_of(&[0, 1, 2, 3]);
    assert_eq!(calculate_byte_level_entropy(&counts, total), 2 * ENTROPY_SCALE);
}

#[test]
fn byte_entropy_of_uniform_table_is_exactly_eight_bits() {
    let all: Vec<u8> = (0u16..256).map(|v| v as u8).collect();
    let (counts, total) = table_of(&all);
    assert_eq!(calculate_byte_level_entropy(&counts, total), 8 * ENTROPY_SCALE);
    // three copies of every byte value
    let mut three = all.clone();
    three.extend_from_slice(&all);
    three.extend_from_slice(&all);
    let (counts, total) = table_of(&three);
    assert_eq!(calculate_byte_level_entropy(&counts, total), 8 * ENTROPY_SCALE);
}

#[test]
fn byte_entropy_of_half_quarter_quarter_is_exactly_one_and_a_half_bits() {
    // probabilities 1/2, 1/4, 1/4: entropy is exactly 1.5 bits
    let (counts, total) = table_of(&[0x41, 0x41, 0x42, 0x43]);
    assert_eq!(calculate_byte_level_entropy(&counts, total), 3 * ENTROPY_SCALE / 2);
}

#[test]
fn byte_entropy_stays_within_its_range() {
    let (counts, total) = table_of(&[1, 2, 3, 4, 5, 6, 7]);
    let e = calculate_byte_level_entropy(&counts, total);
    // log2(7) is between 2.807 and 2.808
    assert!(e > 2 * ENTROPY_SCALE);
    assert!(e < 3 * ENTROPY_SCALE);
    assert!(e <= BYTE_ENTROPY_CAP);
}

#[test]
fn byte_entropy_of_irrational_cases_rounds_down_on_the_grid() {
    // two thirds / one third: the true entropy is log2(3) - 2/3, about
    // 0.918296 bits, which is 60181.43... in 2^-16 steps
    let (counts, total) = table_of(&[0, 0, 1]);
    assert_eq!(calculate_byte_level_entropy(&counts, total), 60181);
    // seven equally likely symbols: log2(7) is about 2.807355 bits,
    // 183982.81... in 2^-16 steps
    let (counts, total) = table_of(&[1, 2, 3, 4, 5, 6, 7]);
    assert_eq!(calculate_byte_level_entropy(&counts, total), 183982);
}

#[test]
fn bit_entropy_of_uniform_bytes_matches_the_popcount_distribution() {
    // over all 256 byte values the popcount buckets hold the binomial
    // counts C(8, k); that distribution's entropy is about 2.544165 bits,
    // 166736.52... in 2^-16 steps
    let all: Vec<u8> = (0u16..256).map(|v| v as u8).collect();
    let (counts, total) = table_of(&all);
    assert_eq!(calculate_bit_level_entropy(&counts, total), 166736);
}

#[test]
fn bit_entropy_of_single_popcount_bucket_is_zero() {
    // 0x01, 0x02, 0x04, 0x08 all have exactly one bit set: four distinct
    // byte values, two bits of byte-level entropy, no bit-level entropy
    let (counts, total) = table_of(&[0x01, 0x02, 0x04, 0x08]);
    assert_eq!(calculate_bit_level_entropy(&counts, total), 0);
    assert_eq!(calculate_byte_level_entropy(&counts, total), 2 * ENTROPY_SCALE);
}

#[test]
fn bit_entropy_of_two_equal_buckets_is_exactly_one_bit() {
    // popcount 0 and popcount 1, equally often
    let (counts, total) = table_of(&[0x00, 0x01]);
    assert_eq!(calculate_bit_level_entropy(&counts, total), ENTROPY_SCALE);
}

#[test]
fn bit_entropy_stays_within_its_range() {
    let all: Vec<u8> = (0u16..256).map(|v| v as u8).collect();
    let (counts, total) = table_of(&all);
    let e = calculate_bit_level_entropy(&counts, total);
    assert!(e > 0);
    assert!(e <= BIT_ENTROPY_CAP);
}
