use blp_lib::build_mip_visibility_from_count;
use blp_lib::encode::encode;
use blp_lib::encode::encode_with_flags;
use blp_lib::error::BlpError;
use blp_lib::error::BlpResult;
use blp_lib::format::parse;
use blp_lib::format::Variant;
use blp_lib::raster::Raster;

fn solid_raster(w: u32, h: u32, rgba: [u8; 4]) -> Raster {
    let mut data = Vec::new();
    for _ in 0..(w * h) {
        data.extend_from_slice(&rgba);
    }
    Raster::new(w, h, data).unwrap()
}

fn gradient_raster(w: u32, h: u32) -> Raster {
    let mut data = Vec::new();
    for y in 0..h {
        for x in 0..w {
            data.push((x * 16 % 256) as u8);
            data.push((y * 16 % 256) as u8);
            data.push(((x + y) * 8 % 256) as u8);
            data.push(255);
        }
    }
    Raster::new(w, h, data).unwrap()
}

#[test]
fn palette_roundtrip_exact_colors() {
    // Few distinct colors and varying alpha: the palette quantizer must be
    // lossless and alpha preserved at depth 8.
    let w = 8u32;
    let h = 4u32;
    let mut data = Vec::new();
    for y in 0..h {
        for x in 0..w {
            let c = ((x % 4) * 60) as u8;
            data.push(c);
            data.push(255 - c);
            data.push(10 * (y as u8));
            data.push(if (x + y) % 2 == 0 { 255 } else { 128 });
        }
    }
    let src = Raster::new(w, h, data.clone()).unwrap();
    let bytes = encode(&src, Variant::Palette, 100, 1).unwrap();
    let mut img = parse(bytes.as_slice()).unwrap();
    let mask = build_mip_visibility_from_count(1);
    img.decode(bytes.as_slice(), &mask).unwrap();
    let mip = img.get_mip(0).unwrap();
    assert_eq!(mip.width, w);
    assert_eq!(mip.height, h);
    assert_eq!(mip.data, data);
}

#[test]
fn four_by_four_red_quality_100() {
    // A 4x4 all-red opaque raster at quality 100 with one mip decodes back
    // to exactly (255, 0, 0, 255) everywhere.
    let src = solid_raster(4, 4, [255, 0, 0, 255]);
    let bytes = encode(&src, Variant::Palette, 100, 1).unwrap();
    let mut img = parse(bytes.as_slice()).unwrap();
    let mask = build_mip_visibility_from_count(1);
    img.decode(bytes.as_slice(), &mask).unwrap();
    let mip = img.get_mip(0).unwrap();
    assert_eq!(mip.width, 4);
    assert_eq!(mip.height, 4);
    for p in 0..16 {
        assert_eq!(mip.data[4 * p], 255);
        assert_eq!(mip.data[4 * p + 1], 0);
        assert_eq!(mip.data[4 * p + 2], 0);
        assert_eq!(mip.data[4 * p + 3], 255);
    }
}

#[test]
fn decode_is_idempotent() {
    let src = gradient_raster(8, 8);
    let bytes = encode(&src, Variant::Palette, 100, 3).unwrap();
    let mut img = parse(bytes.as_slice()).unwrap();
    let mask = build_mip_visibility_from_count(3);
    img.decode(bytes.as_slice(), &mask).unwrap();
    let first: Vec<Vec<u8>> = (0..3).map(|i| img.get_mip(i).unwrap().data.clone()).collect();
    img.decode(bytes.as_slice(), &mask).unwrap();
    for i in 0..3 {
        assert_eq!(img.get_mip(i).unwrap().data, first[i]);
    }
}

#[test]
fn mip_geometry_follows_shifts() {
    // Dimensions of decoded mip i are max(1, W >> i) x max(1, H >> i).
    let w = 16u32;
    let h = 4u32;
    let src = gradient_raster(w, h);
    let bytes = encode(&src, Variant::Palette, 100, 6).unwrap();
    let mut img = parse(bytes.as_slice()).unwrap();
    let mask = build_mip_visibility_from_count(6);
    img.decode(bytes.as_slice(), &mask).unwrap();
    for i in 0..6u32 {
        let mip = img.get_mip(i as usize).unwrap();
        assert_eq!(mip.width, std::cmp::max(1, w >> i));
        assert_eq!(mip.height, std::cmp::max(1, h >> i));
    }
}

#[test]
fn visibility_mask_selects_only_requested_mip() {
    let src = gradient_raster(16, 16);
    let bytes = encode(&src, Variant::Palette, 100, 4).unwrap();
    let mut img = parse(bytes.as_slice()).unwrap();
    let mut mask = vec![false; 16];
    mask[2] = true;
    img.decode(bytes.as_slice(), &mask).unwrap();
    assert!(img.get_mip(0).is_none());
    assert!(img.get_mip(1).is_none());
    assert!(img.get_mip(2).is_some());
    assert!(img.get_mip(3).is_none());
    assert_eq!(img.get_mip(2).unwrap().width, 4);
}

#[test]
fn boundary_mip_counts_and_empty_buffers() {
    let src = solid_raster(4, 4, [1, 2, 3, 255]);
    assert_eq!(encode(&src, Variant::Palette, 100, 0), Err(BlpError::InvalidInput));
    assert_eq!(encode(&src, Variant::Palette, 100, 17), Err(BlpError::InvalidInput));
    assert_eq!(encode(&src, Variant::Palette, 101, 1), Err(BlpError::InvalidInput));
    let empty: Vec<u8> = Vec::new();
    assert!(matches!(parse(empty.as_slice()), Err(BlpError::ParseError)));
    let bytes = encode(&src, Variant::Palette, 100, 1).unwrap();
    let mut img = parse(bytes.as_slice()).unwrap();
    let mask = build_mip_visibility_from_count(1);
    assert_eq!(img.decode(empty.as_slice(), &mask), Err(BlpError::InvalidInput));
}

#[test]
fn zero_size_raster_is_invalid_input() {
    let bad = Raster { width: 0, height: 4, data: Vec::new() };
    assert_eq!(encode(&bad, Variant::Palette, 100, 1), Err(BlpError::InvalidInput));
}

#[test]
fn parse_rejects_bad_magic_and_truncation() {
    let src = solid_raster(4, 4, [9, 9, 9, 255]);
    let mut bytes = encode(&src, Variant::Palette, 100, 1).unwrap();
    let mut broken = bytes.clone();
    broken[0] = 0x51;
    assert!(matches!(parse(broken.as_slice()), Err(BlpError::ParseError)));
    bytes.truncate(100);
    assert!(matches!(parse(bytes.as_slice()), Err(BlpError::ParseError)));
}

#[test]
fn export_png_requires_decoded_mip() {
    let src = solid_raster(4, 4, [0, 255, 0, 255]);
    let bytes = encode(&src, Variant::Palette, 100, 2).unwrap();
    let img = parse(bytes.as_slice()).unwrap();
    assert_eq!(img.export_png(0).unwrap_err(), BlpError::ExportError);
}

#[test]
fn export_png_stream_decodes_back() {
    // The PNG export must really serialize the pixels, not hand them back.
    let src = gradient_raster(8, 8);
    let bytes = encode(&src, Variant::Palette, 100, 1).unwrap();
    let mut img = parse(bytes.as_slice()).unwrap();
    let mask = build_mip_visibility_from_count(1);
    img.decode(bytes.as_slice(), &mask).unwrap();
    let png_bytes = img.export_png(0).unwrap();
    assert_ne!(png_bytes, img.get_mip(0).unwrap().data);
    assert_eq!(&png_bytes[1..4], b"PNG");
    let decoder = png::Decoder::new(std::io::Cursor::new(&png_bytes));
    let mut reader = decoder.read_info().unwrap();
    let mut buf = vec![0u8; reader.output_buffer_size().unwrap()];
    let info = reader.next_frame(&mut buf).unwrap();
    assert_eq!(info.width, 8);
    assert_eq!(info.height, 8);
    assert_eq!(&buf[..info.buffer_size()], img.get_mip(0).unwrap().data.as_slice());
}

#[test]
fn export_raw_jpeg_rejected_for_palette() {
    let src = solid_raster(4, 4, [1, 1, 1, 255]);
    let bytes = encode(&src, Variant::Palette, 100, 1).unwrap();
    let img = parse(bytes.as_slice()).unwrap();
    assert_eq!(img.export_raw_jpeg(0, bytes.as_slice()).unwrap_err(), BlpError::ExportError);
}

#[test]
fn jpeg_raw_export_matches_decoded_mip() {
    // A JPEG-variant file with three mips: re-exporting mip 1 without
    // recompression and decoding it independently gives the same pixels the
    // library's own decode produces for that mip.
    let src = gradient_raster(16, 16);
    let bytes = encode(&src, Variant::Jpeg, 90, 3).unwrap();
    let mut img = parse(bytes.as_slice()).unwrap();
    let mask = build_mip_visibility_from_count(3);
    img.decode(bytes.as_slice(), &mask).unwrap();
    let mip1 = img.get_mip(1).unwrap();
    assert_eq!(mip1.width, 8);
    assert_eq!(mip1.height, 8);
    let raw = img.export_raw_jpeg(1, bytes.as_slice()).unwrap();
    assert_eq!(&raw[0..2], &[0xff, 0xd8]);
    let mut dec = jpeg_decoder::Decoder::new(std::io::Cursor::new(&raw));
    let pixels = dec.decode().unwrap();
    let info = dec.info().unwrap();
    assert_eq!(info.width, 8);
    assert_eq!(info.height, 8);
    for p in 0..64usize {
        assert_eq!(pixels[3 * p], mip1.data[4 * p]);
        assert_eq!(pixels[3 * p + 1], mip1.data[4 * p + 1]);
        assert_eq!(pixels[3 * p + 2], mip1.data[4 * p + 2]);
        assert_eq!(mip1.data[4 * p + 3], 255);
    }
}

#[test]
fn jpeg_roundtrip_is_close() {
    let src = solid_raster(8, 8, [200, 60, 30, 255]);
    let bytes = encode(&src, Variant::Jpeg, 95, 1).unwrap();
    let mut img = parse(bytes.as_slice()).unwrap();
    let mask = build_mip_visibility_from_count(1);
    img.decode(bytes.as_slice(), &mask).unwrap();
    let mip = img.get_mip(0).unwrap();
    for p in 0..64usize {
        for c in 0..3usize {
            let a = mip.data[4 * p + c] as i32;
            let b = src.data[4 * p + c] as i32;
            assert!((a - b).abs() <= 24, "channel {} off by {}", c, (a - b).abs());
        }
        assert_eq!(mip.data[4 * p + 3], 255);
    }
}

#[test]
fn encode_with_flags_emits_selected_levels() {
    let src = gradient_raster(16, 16);
    let mut flags = vec![false; 16];
    flags[0] = true;
    flags[2] = true;
    let bytes = encode_with_flags(&src, Variant::Palette, 100, &flags).unwrap();
    let mut img = parse(bytes.as_slice()).unwrap();
    let mut mask = vec![true; 16];
    mask[1] = false;
    img.decode(bytes.as_slice(), &mask).unwrap();
    assert!(img.get_mip(0).is_some());
    assert!(img.get_mip(1).is_none());
    assert!(img.get_mip(2).is_some());
    assert!(img.get_mip(3).is_none());
    assert_eq!(img.mip_count(), 2);
}

#[test]
fn visibility_helper_sets_leading_flags() {
    let flags = build_mip_visibility_from_count(3);
    assert_eq!(flags.len(), 16);
    for i in 0..16 {
        assert_eq!(flags[i], i < 3);
    }
    let all = build_mip_visibility_from_count(40);
    assert!(all.iter().all(|&f| f));
}

#[test]
fn error_codes_map_to_results() {
    assert_eq!(BlpError::InvalidInput.to_result(), BlpResult::InvalidInput);
    assert_eq!(BlpError::ParseError.to_result(), BlpResult::ParseError);
    assert_eq!(BlpError::EncodeError.to_result(), BlpResult::UnknownError);
    assert_eq!(BlpError::ExportError.to_result(), BlpResult::UnknownError);
}

#[test]
fn alpha_plane_is_emitted_only_when_needed() {
    let opaque = solid_raster(4, 4, [7, 8, 9, 255]);
    let translucent = solid_raster(4, 4, [7, 8, 9, 100]);
    let b1 = encode(&opaque, Variant::Palette, 100, 1).unwrap();
    let b2 = encode(&translucent, Variant::Palette, 100, 1).unwrap();
    // Alpha depth byte sits at offset 13.
    assert_eq!(b1[13], 0);
    assert_eq!(b2[13], 8);
    let mut img = parse(b2.as_slice()).unwrap();
    let mask = build_mip_visibility_from_count(1);
    img.decode(b2.as_slice(), &mask).unwrap();
    assert_eq!(img.get_mip(0).unwrap().data[3], 100);
}

#[test]
fn long_thin_raster_roundtrips() {
    // One long side is fine: only the pixel budget is capped, not the
    // aspect ratio, so a 20000 by 2 image encodes and parses.
    let w = 20000u32;
    let h = 2u32;
    let mut data = Vec::new();
    for p in 0..(w * h) {
        data.push((p % 251) as u8);
        data.push(0);
        data.push(0);
        data.push(255);
    }
    let src = Raster::new(w, h, data).unwrap();
    let bytes = encode(&src, Variant::Palette, 100, 1).unwrap();
    let mut img = parse(bytes.as_slice()).unwrap();
    let mask = build_mip_visibility_from_count(1);
    img.decode(bytes.as_slice(), &mask).unwrap();
    let mip = img.get_mip(0).unwrap();
    assert_eq!(mip.width, w);
    assert_eq!(mip.height, h);
}

#[test]
fn long_thin_header_parses() {
    // A header-only stream with dimensions 20000 by 2 and an all-absent
    // mip table is a valid BLP.
    let mut b = Vec::new();
    b.extend_from_slice(&[0x42, 0x4c, 0x50, 0x31]);
    b.extend_from_slice(&20000u32.to_le_bytes());
    b.extend_from_slice(&2u32.to_le_bytes());
    b.push(1);
    b.push(0);
    for _ in 0..32 {
        b.extend_from_slice(&0u32.to_le_bytes());
    }
    b.resize(1166, 0);
    let img = parse(b.as_slice()).unwrap();
    assert_eq!(img.mip_count(), 0);
}

#[test]
fn all_false_flags_are_honored_for_palette() {
    // The palette encoder honors the flags exactly: an all-clear mask
    // produces a stream with no mip data at all.
    let src = solid_raster(4, 4, [3, 4, 5, 255]);
    let flags = vec![false; 16];
    let bytes = encode_with_flags(&src, Variant::Palette, 100, &flags).unwrap();
    let img = parse(bytes.as_slice()).unwrap();
    assert_eq!(img.mip_count(), 0);
}

#[test]
fn jpeg_flags_always_include_base_level() {
    // The JPEG variant stores the shared header in mip 0, so that level is
    // always emitted even when the flags leave it out.
    let src = gradient_raster(8, 8);
    let mut flags = vec![false; 16];
    flags[1] = true;
    let bytes = encode_with_flags(&src, Variant::Jpeg, 90, &flags).unwrap();
    let mut img = parse(bytes.as_slice()).unwrap();
    let mask = build_mip_visibility_from_count(2);
    img.decode(bytes.as_slice(), &mask).unwrap();
    assert!(img.get_mip(0).is_some());
    assert!(img.get_mip(1).is_some());
    assert_eq!(img.mip_count(), 2);
}
