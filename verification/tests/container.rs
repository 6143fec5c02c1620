use pxc::decode;
use pxc::decoder::DecodeError;
use pxc::encode;
use pxc::encoder::EncodingError;
use pxc::pxc_image::PXCImage;
use pxc::Image;

#[test]
fn test_encode_decode_repeating_color() {
    let width: u16 = 4;
    let height: u16 = 4;

    let data = vec![255, 0, 0, 255].repeat((width * height).try_into().unwrap()); // 4x4 red image

    let encoded = encode(4, 4, &data).unwrap();

    let decoded = decode(&encoded).unwrap();
    assert_eq!(decoded.rgba_data, data);

    assert_eq!(decoded.width, width);
    assert_eq!(decoded.height, height);
    assert_eq!(decoded.palette.len(), 1);
    assert_eq!(decoded.palette[0], [255, 0, 0, 255]);
}

#[test]
fn test_encode_layout_of_small_image() {
    // Two red pixels as a 2x1 image: magic, dimensions, one palette entry,
    // then the LZW bytes.
    let data = vec![255, 0, 0, 255, 255, 0, 0, 255];
    let encoded = encode(2, 1, &data).unwrap();
    assert_eq!(&encoded[0..4], &[0x50, 0x58, 0x43, 0x31]);
    assert_eq!(&encoded[4..8], &[0, 2, 0, 1]);
    assert_eq!(encoded[8], 1);
    assert_eq!(&encoded[9..13], &[255, 0, 0, 255]);
}

#[test]
fn test_encode_decode_gradient_full_palette() {
    // 256 pixels with 256 distinct colors as a 16x16 image: the palette
    // length byte wraps to 0, which stands for 256 entries on decode.
    let mut data = Vec::new();
    for i in 0..256 {
        data.extend_from_slice(&[i as u8, i as u8, i as u8, 255]);
    }
    let encoded = encode(16, 16, &data).unwrap();
    assert_eq!(encoded[8], 0);

    let decoded = decode(&encoded).unwrap();
    assert_eq!(decoded.width, 16);
    assert_eq!(decoded.height, 16);
    assert_eq!(decoded.palette_size, 0);
    assert_eq!(decoded.palette.len(), 256);
    assert_eq!(decoded.rgba_data, data);
}

#[test]
fn test_decode_rejects_empty_and_bad_magic() {
    assert!(matches!(decode(&vec![]), Err(DecodeError::InvalidHeader)));
    assert!(matches!(
        decode(&vec![0x50, 0x58, 0x43]),
        Err(DecodeError::InvalidHeader)
    ));
    assert!(matches!(
        decode(&vec![0x50, 0x58, 0x43, 0x32, 0, 0, 0, 0, 0]),
        Err(DecodeError::InvalidHeader)
    ));
}

#[test]
fn test_decode_rejects_truncated_dimensions() {
    assert!(matches!(
        decode(&vec![0x50, 0x58, 0x43, 0x31, 0, 2]),
        Err(DecodeError::DimensionParsingFailed)
    ));
}

#[test]
fn test_decode_rejects_missing_palette_size() {
    assert!(matches!(
        decode(&vec![0x50, 0x58, 0x43, 0x31, 0, 2, 0, 1]),
        Err(DecodeError::InsufficientDataForPaletteSize)
    ));
}

#[test]
fn test_decode_rejects_truncated_palette() {
    // Palette length byte says 2 entries, but only one full entry follows.
    assert!(matches!(
        decode(&vec![0x50, 0x58, 0x43, 0x31, 0, 2, 0, 1, 2, 9, 9, 9, 9, 1, 1]),
        Err(DecodeError::UnexpectedEofPaletteColor(1))
    ));
}

#[test]
fn test_decode_rejects_truncated_code_stream() {
    // A valid header and palette followed by a single dangling byte.
    assert!(matches!(
        decode(&vec![0x50, 0x58, 0x43, 0x31, 0, 2, 0, 1, 1, 9, 9, 9, 9, 0]),
        Err(DecodeError::DecompressionFailed(_))
    ));
}

#[test]
fn test_image_new_keeps_fields() {
    let img = Image::new(2, 1, 1, vec![[255, 0, 0, 255]], vec![255, 0, 0, 255, 255, 0, 0, 255]);
    assert_eq!(img.magic, [0x50, 0x58, 0x43, 0x31]);
    assert_eq!(img.width, 2);
    assert_eq!(img.height, 1);
    assert_eq!(img.palette_size, 1);
    assert_eq!(img.palette, vec![[255, 0, 0, 255]]);
    assert_eq!(img.rgba_data.len(), 8);
}

#[test]
fn test_pxc_image_new_keeps_fields() {
    let img = PXCImage::new(1, 4, 4, vec![[1, 2, 3, 4]], vec![256, 257]);
    assert_eq!(img.version, 1);
    assert_eq!(img.width, 4);
    assert_eq!(img.height, 4);
    assert_eq!(img.palette, vec![[1, 2, 3, 4]]);
    assert_eq!(img.data, vec![256, 257]);
}

#[test]
fn test_encode_rejects_odd_length() {
    assert!(matches!(
        encode(1, 1, &vec![1, 2, 3]),
        Err(EncodingError::CompressionFailed(_))
    ));
}
