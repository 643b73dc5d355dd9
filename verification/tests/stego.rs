use crypto_practices::stego::{
    capacity, capacity_fits, decode, decode_fits, encode, encode_fits, parse_bmp,
};

/// Create a minimal 24-bit BMP in memory with the given dimensions.
fn make_bmp(width: u32, height: u32) -> Vec<u8> {
    let row_data = width as usize * 3;
    let row_stride = (row_data + 3) & !3;
    let pixel_data_size = row_stride * height as usize;
    let file_size = 54 + pixel_data_size;

    let mut data = vec![0u8; file_size];

    // BM signature
    data[0] = b'B';
    data[1] = b'M';

    // File size
    let fs = file_size as u32;
    data[2..6].copy_from_slice(&fs.to_le_bytes());

    // Pixel data offset
    data[10..14].copy_from_slice(&54u32.to_le_bytes());

    // DIB header size (BITMAPINFOHEADER = 40)
    data[14..18].copy_from_slice(&40u32.to_le_bytes());

    // Width
    data[18..22].copy_from_slice(&width.to_le_bytes());

    // Height (positive = bottom-up)
    data[22..26].copy_from_slice(&(height as i32).to_le_bytes());

    // Planes
    data[26..28].copy_from_slice(&1u16.to_le_bytes());

    // Bits per pixel
    data[28..30].copy_from_slice(&24u16.to_le_bytes());

    // Fill pixel data with 0xFF (white)
    for i in 54..data.len() {
        data[i] = 0xFF;
    }

    data
}

#[test]
fn roundtrip_basic() {
    let bmp = make_bmp(10, 10);
    let message = b"Hello, steganography!";

    let encoded = encode(&bmp, message).unwrap();
    let decoded = decode(&encoded).unwrap();

    assert_eq!(decoded, message);
}

#[test]
fn roundtrip_empty_message() {
    let bmp = make_bmp(10, 10);
    let message = b"";

    let encoded = encode(&bmp, message).unwrap();
    let decoded = decode(&encoded).unwrap();

    assert_eq!(decoded, message);
}

#[test]
fn roundtrip_binary_data() {
    let bmp = make_bmp(30, 24);
    let message: Vec<u8> = (0..=255).collect();

    let encoded = encode(&bmp, &message).unwrap();
    let decoded = decode(&encoded).unwrap();

    assert_eq!(decoded, message);
}

#[test]
fn capacity_calculation() {
    let bmp = make_bmp(10, 10);
    let cap = capacity(&bmp).unwrap();
    // 10 * 3 * 10 = 300 usable bytes, 300 / 8 = 37, 37 - 4 = 33
    assert_eq!(cap, 33);
}

#[test]
fn capacity_with_padding() {
    // Width 5: row_data = 15, row_stride = 16 (1 byte padding)
    // But usable bytes = 5*3*4 = 60, 60/8 = 7, 7-4 = 3
    let bmp = make_bmp(5, 4);
    let cap = capacity(&bmp).unwrap();
    assert_eq!(cap, 3);
}

#[test]
fn roundtrip_with_padding() {
    // Width 5 causes 1 byte of row padding
    let bmp = make_bmp(5, 10);
    let msg = b"Hi";

    let encoded = encode(&bmp, msg).unwrap();
    let decoded = decode(&encoded).unwrap();

    assert_eq!(decoded, msg);
}

#[test]
fn reject_non_bmp() {
    let data = vec![0u8; 100];
    assert!(encode(&data, b"test").is_err());
    assert!(decode(&data).is_err());
    assert!(capacity(&data).is_err());
}

#[test]
fn reject_too_small() {
    let data = vec![0u8; 10];
    assert!(encode(&data, b"test").is_err());
}

#[test]
fn reject_message_exceeds_capacity() {
    let bmp = make_bmp(2, 2);
    // 2*3*2 = 12 usable bytes, 12/8 = 1, 1-4 = negative → capacity 0
    let long_msg = vec![b'A'; 100];
    assert!(encode(&bmp, &long_msg).is_err());
}

#[test]
fn parse_bmp_rejects_non_24bit() {
    let mut data = make_bmp(10, 10);
    // Change bpp to 32
    data[28..30].copy_from_slice(&32u16.to_le_bytes());
    assert!(parse_bmp(&data).is_err());
}

#[test]
fn error_messages_are_exact() {
    assert_eq!(encode(&[0u8; 10], b"test").unwrap_err(), "File too small to be a valid BMP");
    assert_eq!(decode(&[0u8; 100]).unwrap_err(), "Not a BMP file (missing BM signature)");
    let mut data = make_bmp(10, 10);
    data[28..30].copy_from_slice(&32u16.to_le_bytes());
    assert_eq!(capacity(&data).unwrap_err(), "Only 24-bit BMP supported, got 32-bit");
    let mut data = make_bmp(10, 10);
    data[10..14].copy_from_slice(&5000u32.to_le_bytes());
    assert_eq!(parse_bmp(&data).err().unwrap(), "Invalid pixel data offset");
    let bmp = make_bmp(2, 2);
    assert_eq!(
        encode(&bmp, &[b'A'; 100]).unwrap_err(),
        "Message too large: need 100 bytes but only 0 available"
    );
    let bmp = make_bmp(10, 10);
    assert_eq!(
        encode(&bmp, &[b'A'; 34]).unwrap_err(),
        "Message too large: need 34 bytes but only 33 available"
    );
    assert!(encode(&bmp, &[b'A'; 33]).is_ok());
    assert_eq!(decode(&make_bmp(2, 2)).unwrap_err(), "Image too small to contain a hidden message");
    // all pixel LSBs set: the length field reads 0xffffffff
    assert_eq!(
        decode(&make_bmp(10, 10)).unwrap_err(),
        "Encoded length (4294967295 bytes) exceeds image capacity"
    );
}

#[test]
fn header_fields_are_read() {
    let mut bmp = make_bmp(7, 3);
    // negative height (top-down image)
    bmp[22..26].copy_from_slice(&(-3i32).to_le_bytes());
    let info = parse_bmp(&bmp).ok().unwrap();
    assert_eq!(info.pixel_offset, 54);
    assert_eq!(info.width, 7);
    assert_eq!(info.height, 3);
}

#[test]
fn encode_touches_only_lsbs_of_pixel_bytes() {
    let bmp = make_bmp(5, 10);
    let encoded = encode(&bmp, b"Hi").unwrap();
    assert_eq!(encoded.len(), bmp.len());
    assert_eq!(encoded[..54], bmp[..54]);
    for (a, b) in encoded.iter().zip(bmp.iter()) {
        assert_eq!(a & 0xfe, b & 0xfe);
    }
    // length 2 = 0x00000002: bits 0..30 are 0, bit 30 is 1, bit 31 is 0
    assert_eq!(encoded[54] & 1, 0);
    // row padding byte (offset 54 + 15) is never written
    assert_eq!(encoded[54 + 15], 0xff);
}

#[test]
fn bounds_checks_flag_truncated_files() {
    let bmp = make_bmp(10, 10);
    assert!(encode_fits(&bmp, 5));
    assert!(decode_fits(&bmp));
    assert!(capacity_fits(&bmp));
    let truncated = bmp[..60].to_vec();
    assert!(!encode_fits(&truncated, 5));
    assert!(!decode_fits(&truncated));
    assert!(capacity_fits(&truncated));
    assert!(encode_fits(&[0u8; 10], 5));
}
