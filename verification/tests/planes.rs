use blp_lib::error::BlpError;
use blp_lib::format::parse;

/// Builds a 2x2 palette-variant BLP with the given alpha depth, two
/// palette colors, indices [0, 1, 0, 1], and the given alpha plane bytes.
fn tiny_palette_blp(depth: u8, plane: &[u8]) -> Vec<u8> {
    let mut b = Vec::new();
    b.extend_from_slice(&[0x42, 0x4c, 0x50, 0x31]);
    b.extend_from_slice(&2u32.to_le_bytes());
    b.extend_from_slice(&2u32.to_le_bytes());
    b.push(1); // palette variant
    b.push(depth);
    // mip table: level 0 present, the rest absent
    let len0 = 4 + plane.len() as u32;
    b.extend_from_slice(&1166u32.to_le_bytes());
    b.extend_from_slice(&len0.to_le_bytes());
    for _ in 1..16 {
        b.extend_from_slice(&0u32.to_le_bytes());
        b.extend_from_slice(&0u32.to_le_bytes());
    }
    // palette: entry 0 and entry 1, the rest zeroed
    b.extend_from_slice(&[10, 20, 30, 255]);
    b.extend_from_slice(&[200, 100, 50, 255]);
    b.resize(1166, 0);
    // mip 0: index plane then alpha plane
    b.extend_from_slice(&[0, 1, 0, 1]);
    b.extend_from_slice(plane);
    b
}

fn decode_tiny(depth: u8, plane: &[u8]) -> Vec<u8> {
    let bytes = tiny_palette_blp(depth, plane);
    let mut img = parse(bytes.as_slice()).unwrap();
    let mut mask = vec![false; 16];
    mask[0] = true;
    img.decode(bytes.as_slice(), &mask).unwrap();
    img.get_mip(0).unwrap().data.clone()
}

#[test]
fn one_bit_alpha_plane_unpacks() {
    // Bits 0 and 3 set: pixels 0 and 3 opaque, 1 and 2 transparent.
    let data = decode_tiny(1, &[0b0000_1001]);
    assert_eq!(&data[0..4], &[10, 20, 30, 255]);
    assert_eq!(&data[4..8], &[200, 100, 50, 0]);
    assert_eq!(&data[8..12], &[10, 20, 30, 0]);
    assert_eq!(&data[12..16], &[200, 100, 50, 255]);
}

#[test]
fn four_bit_alpha_plane_unpacks_and_scales() {
    // Low nibble is the even pixel: alphas 0, 15, 10, 5 scale by 17.
    let data = decode_tiny(4, &[0xf0, 0x5a]);
    assert_eq!(data[3], 0);
    assert_eq!(data[7], 255);
    assert_eq!(data[11], 170);
    assert_eq!(data[15], 85);
}

#[test]
fn zero_depth_is_fully_opaque() {
    let data = decode_tiny(0, &[]);
    for p in 0..4 {
        assert_eq!(data[4 * p + 3], 255);
    }
}

#[test]
fn truncated_mip_data_is_a_parse_error() {
    // The declared mip length is shorter than the level's geometry needs.
    let mut bytes = tiny_palette_blp(8, &[1, 2, 3, 4]);
    // Shrink the declared length of mip 0 below 4 + 4 bytes.
    bytes[18] = 5;
    assert!(matches!(parse(bytes.as_slice()), Err(BlpError::ParseError)));
}
