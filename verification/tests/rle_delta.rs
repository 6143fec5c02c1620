use pxc::rle_delta::rle_delta_compression;
use pxc::rle_delta::rle_delta_decompression;
use pxc::rle_delta::RleCompressionError;
use pxc::rle_delta::RleDecompressionError;

#[test]
fn test_rle_empty_input() {
    assert!(matches!(
        rle_delta_compression(&vec![]),
        Err(RleCompressionError::EmptyInput)
    ));
}

#[test]
fn test_rle_sequential_numbers() {
    let input = vec![1, 2, 3, 4, 5];
    let compressed = rle_delta_compression(&input).unwrap();
    let decompressed = rle_delta_decompression(&compressed).unwrap();
    assert_eq!(input, decompressed);
}

#[test]
fn test_rle_repeated_values() {
    let input = vec![10, 10, 10, 10, 10, 10];
    let compressed = rle_delta_compression(&input).unwrap();
    let decompressed = rle_delta_decompression(&compressed).unwrap();
    assert_eq!(input, decompressed);
}

#[test]
fn test_rle_wrapping_behavior() {
    let input = vec![255, 0, 1];
    let compressed = rle_delta_compression(&input).unwrap();
    let decompressed = rle_delta_decompression(&compressed).unwrap();
    assert_eq!(input, decompressed);
}

#[test]
fn test_rle_alternating_pattern() {
    let input = vec![0, 1, 0, 1, 0, 1];
    let compressed = rle_delta_compression(&input).unwrap();
    let decompressed = rle_delta_decompression(&compressed).unwrap();
    assert_eq!(input, decompressed);
}

#[test]
fn test_rle_invalid_compressed_data() {
    assert!(matches!(
        rle_delta_decompression(&vec![1, 2]),
        Err(RleDecompressionError::InvalidInputLength(2))
    ));
}

#[test]
fn test_rle_radnom_compressed_data() {
    let input = vec![1, 2, 3, 3, 3, 3, 3, 3, 4, 5, 6, 7, 8, 9, 9, 9, 9, 99, 10];
    let compressed = rle_delta_compression(&input).unwrap();
    let decompressed = rle_delta_decompression(&compressed).unwrap();
    assert_eq!(input, decompressed);
}

#[test]
fn test_rle_gradients() {
    let mut data = Vec::new();
    for i in 0..256 {
        data.extend_from_slice(&[i as u8, i as u8, i as u8, 255]);
    }

    let compressed = rle_delta_compression(&data).unwrap();
    let decompressed = rle_delta_decompression(&compressed).unwrap();
    assert_eq!(data, decompressed);
}

#[test]
fn test_rle_decode_empty_input() {
    assert!(matches!(
        rle_delta_decompression(&vec![]),
        Err(RleDecompressionError::EmptyInput)
    ));
}

#[test]
fn test_rle_decode_single_byte_is_invalid() {
    assert!(matches!(
        rle_delta_decompression(&vec![5]),
        Err(RleDecompressionError::InvalidInputLength(1))
    ));
}

#[test]
fn test_rle_decoded_length_is_sum_of_counts_plus_one() {
    // Initial value 7, then 3 steps of +1 and 2 steps of +0: 1 + 3 + 2 bytes.
    let decoded = rle_delta_decompression(&vec![7, 3, 1, 2, 0]).unwrap();
    assert_eq!(decoded, vec![7, 8, 9, 10, 10, 10]);
    assert_eq!(decoded.len(), 1 + 3 + 2);
}

#[test]
fn test_rle_exact_encoding_of_flat_run() {
    // Five equal bytes: initial value, then one (count, delta 0) pair.
    let compressed = rle_delta_compression(&vec![9, 9, 9, 9, 9]).unwrap();
    assert_eq!(compressed, vec![9, 4, 0]);
}

#[test]
fn test_rle_run_longer_than_255_splits() {
    // 300 equal bytes: a run of 255, then the remaining 44 steps.
    let input = vec![3u8; 300];
    let compressed = rle_delta_compression(&input).unwrap();
    assert_eq!(compressed, vec![3, 255, 0, 44, 0]);
    let decompressed = rle_delta_decompression(&compressed).unwrap();
    assert_eq!(input, decompressed);
}

#[test]
fn test_rle_long_gradient_round_trip() {
    // 300 consecutive values wrap modulo 256 and still round-trip.
    let input: Vec<u8> = (0..300u32).map(|i| (i % 256) as u8).collect();
    let compressed = rle_delta_compression(&input).unwrap();
    let decompressed = rle_delta_decompression(&compressed).unwrap();
    assert_eq!(input, decompressed);
}
