use pxc::pipeline::compress;
use pxc::pipeline::decompress;
use pxc::pipeline::CompressionError;

#[test]
fn test_comp_decomp_repeating_color() {
    // Create test image with single color
    let rgba_data = vec![255, 0, 0, 255].repeat(16); // 4x4 red image

    // Compress
    let compressed = compress(&rgba_data).unwrap();

    // Single color should result in very good compression
    assert!(compressed.data.len() < rgba_data.len() / 4);

    // Decompress and verify
    let decompressed = decompress(compressed).unwrap();
    assert_eq!(decompressed, rgba_data);
}

#[test]
fn test_comp_decomp_three_colors() {
    // Four pixels, three distinct colors: the palette holds them in
    // first-encounter order and the indices point back at them.
    let rgba_data = vec![
        255, 0, 0, 255, //
        255, 0, 0, 255, //
        0, 255, 0, 255, //
        0, 0, 255, 255,
    ];
    let compressed = compress(&rgba_data).unwrap();
    assert_eq!(compressed.palette.len(), 3);
    assert_eq!(
        compressed.palette,
        vec![[255, 0, 0, 255], [0, 255, 0, 255], [0, 0, 255, 255]]
    );
    let decompressed = decompress(compressed).unwrap();
    assert_eq!(decompressed, rgba_data);
}

#[test]
fn test_comp_decomp_gradient_full_palette() {
    // A 256-step grayscale gradient row, then the row again: the palette is
    // full at 256 entries and the round trip is exact.
    let mut row = Vec::new();
    for i in 0..256 {
        row.extend_from_slice(&[i as u8, i as u8, i as u8, 255]);
    }
    let mut rgba_data = row.clone();
    rgba_data.extend_from_slice(&row);

    let compressed = compress(&rgba_data).unwrap();
    assert_eq!(compressed.palette.len(), 256);
    let decompressed = decompress(compressed).unwrap();
    assert_eq!(decompressed, rgba_data);
}

#[test]
fn test_comp_rejects_odd_length() {
    let result = compress(&vec![1, 2, 3, 4, 5]);
    assert!(matches!(
        result,
        Err(CompressionError::PaletteCompressionFailed(_))
    ));
}

#[test]
fn test_comp_rejects_empty_input() {
    // An empty buffer has an empty index stream, which the RLE-delta stage
    // rejects.
    let result = compress(&vec![]);
    assert!(matches!(
        result,
        Err(CompressionError::RleDeltaCompressionFailed(_))
    ));
}
