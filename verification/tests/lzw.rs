use pxc::lzw::lzw_compression;
use pxc::lzw::lzw_decompression;
use pxc::lzw::LzwDecompressionError;

#[test]
fn test_lzw_comp_empty_input() {
    let result = lzw_compression(&vec![]);
    assert!(result.is_ok());
    assert!(result.unwrap().is_empty());
}

#[test]
fn test_lzw_decomp_empty_input() {
    let result = lzw_decompression(&vec![]);
    assert!(result.is_ok());
    assert!(result.unwrap().is_empty());
}

#[test]
fn test_lzw_decomp_incomplete_code() {
    let result = lzw_decompression(&vec![0]);
    assert!(matches!(
        result,
        Err(LzwDecompressionError::IncompleteCode { position: 0 })
    ));
}

#[test]
fn test_lzw_decomp_invalid_code() {
    let result = lzw_decompression(&vec![0xFF, 0xFF]);
    assert!(matches!(
        result,
        Err(LzwDecompressionError::InvalidCode { code: 65535, .. })
    ));
}

#[test]
fn test_lzw_string() {
    let original = b"Hello, World!".to_vec();
    let compressed = lzw_compression(&original).unwrap();
    let decompressed = lzw_decompression(&compressed).unwrap();
    assert_eq!(original, decompressed);
}

#[test]
fn test_lzw_empty() {
    let data = vec![];
    let compressed = lzw_compression(&data).unwrap();
    let decompressed = lzw_decompression(&compressed).unwrap();
    assert_eq!(data, decompressed);
}

#[test]
fn test_lzw_single_byte() {
    let data = vec![42];
    let compressed = lzw_compression(&data).unwrap();
    let decompressed = lzw_decompression(&compressed).unwrap();
    assert_eq!(data, decompressed);
}

#[test]
fn test_lzw_repeated_sequence() {
    let data = vec![1, 2, 3, 1, 2, 3, 1, 2, 3];
    let compressed = lzw_compression(&data).unwrap();
    let decompressed = lzw_decompression(&compressed).unwrap();
    assert_eq!(data, decompressed);
}

#[test]
fn test_lzw_no_repetition() {
    let data = vec![1, 2, 3, 4, 5, 6, 7, 8, 9];
    let compressed = lzw_compression(&data).unwrap();
    let decompressed = lzw_decompression(&compressed).unwrap();
    assert_eq!(data, decompressed);
}

#[test]
fn test_lzw_simple_pattern() {
    // Test with a simple repeating pattern
    let data = vec![1, 1, 1, 1, 1];
    let compressed = lzw_compression(&data).unwrap();
    let decompressed = lzw_decompression(&compressed).unwrap();
    assert_eq!(data, decompressed);
}

#[test]
fn test_lzw_alternating_pattern() {
    // Test with an alternating pattern
    let data = vec![1, 2, 1, 2, 1, 2];
    let compressed = lzw_compression(&data).unwrap();
    let decompressed = lzw_decompression(&compressed).unwrap();
    assert_eq!(data, decompressed);
}

#[test]
fn test_lzw_long_sequence() {
    // Test with a longer sequence
    let data: Vec<u8> = (0..=255).collect();
    let compressed = lzw_compression(&data).unwrap();
    let decompressed = lzw_decompression(&compressed).unwrap();
    assert_eq!(data, decompressed);
}

#[test]
fn test_lzw_large_data() {
    // Test with a larger amount of data
    let data = vec![1, 2, 3, 4, 5, 1, 2, 3, 4, 5, 1, 2, 3, 4, 5, 1, 2, 3, 4, 5];
    let compressed = lzw_compression(&data).unwrap();
    let decompressed = lzw_decompression(&compressed).unwrap();
    assert_eq!(data, decompressed);
}

#[test]
fn test_lzw_gradients() {
    let mut data = Vec::new();
    for i in 0..256 {
        data.extend_from_slice(&[i as u8, i as u8, i as u8, 255]);
    }

    let compressed = lzw_compression(&data).unwrap();
    let decompressed = lzw_decompression(&compressed).unwrap();
    assert_eq!(data, decompressed);
}

#[test]
fn test_lzw_decomp_incomplete_code_mid_stream() {
    // Two whole codes and one dangling byte: incomplete at byte position 4.
    let result = lzw_decompression(&vec![0, 0, 1, 0, 2]);
    assert!(matches!(
        result,
        Err(LzwDecompressionError::IncompleteCode { position: 4 })
    ));
}

#[test]
fn test_lzw_decomp_dictionary_overflow() {
    // 65281 codes: the decoder adds one entry per code after the first and
    // saturates at 65279 entries; the next code is one too many.
    let data = vec![0u8; 2 * 65281];
    let result = lzw_decompression(&data);
    assert!(matches!(
        result,
        Err(LzwDecompressionError::DictionaryOverflow)
    ));
}

#[test]
fn test_lzw_exact_codes_for_repeated_pair() {
    // "ababab": emits 'a', 'b', then the dictionary code 256 for "ab" twice.
    let data = vec![97, 98, 97, 98, 97, 98];
    let compressed = lzw_compression(&data).unwrap();
    assert_eq!(compressed, vec![97, 0, 98, 0, 0, 1, 0, 1]);
    let decompressed = lzw_decompression(&compressed).unwrap();
    assert_eq!(data, decompressed);
}

#[test]
fn test_lzw_decomp_kwkwk_case() {
    // Codes 97, 256: the second code names the entry being defined, the
    // classic case whose expansion is "aa" after an initial "a".
    let decompressed = lzw_decompression(&vec![97, 0, 0, 1]).unwrap();
    assert_eq!(decompressed, vec![97, 97, 97]);
}
