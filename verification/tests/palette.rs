use pxc::palette::palette_compression;
use pxc::palette::palette_decompression;
use pxc::palette::PaletteCompression;
use pxc::palette::PaletteCompressionError;
use pxc::palette::PaletteDecompressionError;

#[test]
fn test_palette_rrgb() {
    let pixels = vec![
        255, 0, 0, 255, // Red
        255, 0, 0, 255, // Red
        0, 255, 0, 255, // Green
        0, 0, 255, 255, // Blue
    ];

    // Test compression
    let compressed = palette_compression(&pixels).unwrap();
    assert_eq!(compressed.palette.len(), 3); // Should have 3 unique colors
    assert_eq!(compressed.indices.len(), 4); // Should have 4 indices
    assert_eq!(compressed.indices[0], compressed.indices[1]); // First two pixels should have same index

    // Test decompression
    let decompressed = palette_decompression(&compressed).unwrap();
    assert_eq!(decompressed, pixels); // Should match original pixels
}

#[test]
fn test_palette_invalid_pixel_data_length() {
    let pixels = vec![255, 0, 0]; // Invalid length (not multiple of 4)
    let result = palette_compression(&pixels);
    assert!(matches!(
        result,
        Err(PaletteCompressionError::InvalidPixelDataLength(3))
    ));
}

#[test]
fn test_palette_invalid_index() {
    let compressed = PaletteCompression {
        palette: vec![[255, 0, 0, 255]], // Palette with one color
        indices: vec![0, 1],             // Second index is invalid
    };
    let result = palette_decompression(&compressed);
    assert!(matches!(
        result,
        Err(PaletteDecompressionError::InvalidPaletteIndex(1, 1))
    ));
}

#[test]
fn test_palette_empty_input() {
    let pixels: Vec<u8> = vec![];
    let compressed = palette_compression(&pixels).unwrap();
    assert!(compressed.palette.is_empty());
    assert!(compressed.indices.is_empty());

    let decompressed = palette_decompression(&compressed).unwrap();
    assert!(decompressed.is_empty());
}

#[test]
fn test_palette_single_color() {
    let pixels = vec![100, 150, 200, 255];
    let compressed = palette_compression(&pixels).unwrap();
    assert_eq!(compressed.palette.len(), 1);
    assert_eq!(compressed.indices.len(), 1);
    assert_eq!(compressed.indices[0], 0);

    let decompressed = palette_decompression(&compressed).unwrap();
    assert_eq!(decompressed, pixels);
}

#[test]
fn test_palette_gradients() {
    let mut data = Vec::new();
    for i in 0..256 {
        data.extend_from_slice(&[i as u8, i as u8, i as u8, 255]);
    }

    let compressed = palette_compression(&data).unwrap();
    let decompressed = palette_decompression(&compressed).unwrap();
    assert_eq!(data, decompressed);
}

#[test]
fn test_palette_overflow_on_257_distinct_colors() {
    // 257 distinct colors: the first 256 fill the palette, the last overflows.
    let mut pixels = Vec::new();
    for i in 0..257u32 {
        pixels.extend_from_slice(&[(i % 256) as u8, (i / 256) as u8, 0, 255]);
    }
    let result = palette_compression(&pixels);
    assert!(matches!(
        result,
        Err(PaletteCompressionError::PaletteOverflow(257))
    ));
}

#[test]
fn test_palette_full_256_colors_round_trip() {
    // Exactly 256 distinct colors fill the palette without overflowing.
    let mut pixels = Vec::new();
    for i in 0..256u32 {
        pixels.extend_from_slice(&[i as u8, 7, 0, 255]);
    }
    let compressed = palette_compression(&pixels).unwrap();
    assert_eq!(compressed.palette.len(), 256);
    let decompressed = palette_decompression(&compressed).unwrap();
    assert_eq!(decompressed, pixels);
}

#[test]
fn test_palette_indices_follow_first_encounter_order() {
    let pixels = vec![
        9, 9, 9, 255, // color a -> index 0
        1, 2, 3, 255, // color b -> index 1
        9, 9, 9, 255, // color a again -> index 0
    ];
    let compressed = palette_compression(&pixels).unwrap();
    assert_eq!(compressed.palette, vec![[9, 9, 9, 255], [1, 2, 3, 255]]);
    assert_eq!(compressed.indices, vec![0, 1, 0]);
}
