use atelier::atl::{
    check_schema, decode_tile_part, encode_tile_part, mask_part, parse_chain, parse_i32, parse_u64, tile_part, AtlError,
    SCHEMA_VERSION,
};
use atelier::image_io::{decode_image, encode_png, ImageIoError};
use atelier::atl::mask_codec::{decode_mask_part, encode_mask_part};
use atelier::mask::Mask;
use atelier::tile::Tile;
use image::ImageEncoder;

#[test]
fn png_round_trip() {
    let (w, h) = (3u32, 2u32);
    let mut rgba = Vec::new();
    for i in 0..(w * h) {
        rgba.extend_from_slice(&[i as u8 * 10, 20, 30, 255]);
    }
    let mut png = Vec::new();
    {
        let enc = image::codecs::png::PngEncoder::new(&mut png);
        enc.write_image(&rgba, w, h, image::ExtendedColorType::Rgba8).unwrap();
    }
    let got = decode_image(&png).unwrap();
    assert_eq!((got.width, got.height), (w, h));
    assert_eq!(got.rgba, rgba);
}

#[test]
fn garbage_bytes_error_not_panic() {
    assert!(decode_image(b"not an image").is_err());
}

#[test]
fn encode_png_round_trips_through_decode() {
    let (w, h) = (4u32, 4u32);
    let rgba: Vec<u8> = (0..w * h).flat_map(|i| [i as u8, 0, 255, 255]).collect();
    let png = encode_png(w, h, &rgba).unwrap();
    let got = decode_image(&png).unwrap();
    assert_eq!((got.width, got.height), (w, h));
    assert_eq!(got.rgba, rgba);
}

#[test]
fn encode_png_rejects_mismatched_buffer() {
    assert!(matches!(encode_png(4, 4, &[0, 0, 0, 255]), Err(ImageIoError::Buffer(4, 4))));
}

#[test]
fn encode_png_output_is_a_png_not_the_pixels() {
    let rgba = vec![1u8, 2, 3, 4];
    let png = encode_png(1, 1, &rgba).unwrap();
    assert_ne!(png, rgba);
    assert_eq!(&png[1..4], b"PNG");
}

#[test]
fn schema_versions_up_to_current_are_accepted() {
    assert_eq!(SCHEMA_VERSION, 3);
    assert!(check_schema(0).is_ok());
    assert!(check_schema(SCHEMA_VERSION).is_ok());
    assert_eq!(check_schema(SCHEMA_VERSION + 1), Err(AtlError::VersionTooNew(4)));
}

#[test]
fn node_id_chains_parse_like_std() {
    assert_eq!(parse_chain("3"), Some(vec![3]));
    assert_eq!(parse_chain("3.1.22"), Some(vec![3, 1, 22]));
    assert_eq!(parse_chain("+7"), Some(vec![7]));
    assert_eq!(parse_chain("18446744073709551615"), Some(vec![u64::MAX]));
    assert_eq!(parse_chain("18446744073709551616"), None);
    assert_eq!(parse_chain(""), None);
    assert_eq!(parse_chain("3..1"), None);
    assert_eq!(parse_chain("3."), None);
    assert_eq!(parse_chain("x"), None);
    assert_eq!(parse_chain("-1"), None);
}

#[test]
fn integer_fields_parse_like_std() {
    let s = b"12-34+5-2147483648 2147483648";
    assert_eq!(parse_u64(s, 0, 2), Some(12));
    assert_eq!(parse_i32(s, 2, 5), Some(-34));
    assert_eq!(parse_i32(s, 5, 7), Some(5));
    assert_eq!(parse_i32(s, 7, 18), Some(i32::MIN));
    assert_eq!(parse_i32(s, 19, 29), None);
    assert_eq!(parse_u64(s, 2, 5), None);
    assert_eq!(parse_u64(s, 0, 0), None);
}

#[test]
fn tile_part_names() {
    assert_eq!(tile_part("header.json"), None);
    assert_eq!(tile_part("tiles/3/0_-1.bin"), Some(Some((vec![3], 0, -1))));
    assert_eq!(tile_part("tiles/5.2/7_8.bin"), Some(Some((vec![5, 2], 7, 8))));
    assert_eq!(tile_part("tiles/not-a-node.bin"), Some(None));
    assert_eq!(tile_part("tiles/3/0_1.png"), Some(None));
    assert_eq!(tile_part("tiles/3/01.bin"), Some(None));
    assert_eq!(tile_part("tiles/x/0_1.bin"), Some(None));
}

#[test]
fn mask_part_names() {
    assert_eq!(mask_part("tiles/3/0_0.bin"), None);
    assert_eq!(mask_part("masks/4.bin"), Some(Some(vec![4])));
    assert_eq!(mask_part("masks/4.9.bin"), Some(Some(vec![4, 9])));
    assert_eq!(mask_part("masks/4"), Some(None));
    assert_eq!(mask_part("masks/.bin"), Some(None));
}

#[test]
fn tile_part_codec_round_trips() {
    let mut t = Tile::blank();
    t.set_pixel(3, 4, [9, 8, 7, 6]);
    t.set_pixel(255, 255, [1, 2, 3, 4]);
    let stored = encode_tile_part(&t);
    assert!(stored.len() < 262144, "compressed");
    assert_ne!(stored.as_slice(), t.bytes());
    let back = decode_tile_part(&stored).unwrap();
    assert_eq!(back, t);
}

#[test]
fn malformed_tile_part_bytes_are_rejected() {
    assert!(decode_tile_part(b"garbage").is_none());
    // Valid lz4, wrong size: not a tile.
    let short = lz4_flex::compress_prepend_size(&[0u8; 16]);
    assert!(decode_tile_part(&short).is_none());
}

#[test]
fn mask_part_round_trips_coverage() {
    let mut m = Mask::new();
    m.set(-3, 5, 200);
    m.set(300, 7, 9);
    m.set(10, 6, 255);
    let stored = encode_mask_part(&m).unwrap();
    let back = decode_mask_part(&stored).unwrap();
    for (x, y) in [(-3, 5), (300, 7), (10, 6), (0, 0), (-4, 5), (301, 7), (11, 6)] {
        assert_eq!(back.get(x, y), m.get(x, y), "coverage at ({x}, {y})");
    }
    assert_eq!(back.pixel_bounds(), Some([-3, 5, 301, 8]));
}

#[test]
fn empty_mask_writes_no_part_and_bad_parts_are_rejected() {
    assert!(encode_mask_part(&Mask::new()).is_none());
    assert!(decode_mask_part(b"junk").is_none());
    // A header announcing 2x2 coverage with only 3 bytes of it.
    let mut raw = Vec::new();
    for v in [0i32, 0, 2, 2] {
        raw.extend_from_slice(&v.to_le_bytes());
    }
    raw.extend_from_slice(&[1, 2, 3]);
    assert!(decode_mask_part(&lz4_flex::compress_prepend_size(&raw)).is_none());
    raw.push(4);
    let m = decode_mask_part(&lz4_flex::compress_prepend_size(&raw)).unwrap();
    assert_eq!((m.get(0, 0), m.get(1, 0), m.get(0, 1), m.get(1, 1)), (1, 2, 3, 4));
}

#[test]
fn lossless_formats_decode_from_memory() {
    let (w, h) = (3u32, 2u32);
    let rgba: Vec<u8> = (0..w * h).flat_map(|i| [i as u8 * 8, 40, 200, 255]).collect();
    let mut tiff = std::io::Cursor::new(Vec::new());
    image::codecs::tiff::TiffEncoder::new(&mut tiff)
        .write_image(&rgba, w, h, image::ExtendedColorType::Rgba8)
        .unwrap();
    let mut bmp = Vec::new();
    image::codecs::bmp::BmpEncoder::new(&mut bmp)
        .write_image(&rgba, w, h, image::ExtendedColorType::Rgba8)
        .unwrap();
    let mut webp = Vec::new();
    image::codecs::webp::WebPEncoder::new_lossless(&mut webp)
        .write_image(&rgba, w, h, image::ExtendedColorType::Rgba8)
        .unwrap();
    for (name, bytes) in [("tiff", tiff.into_inner()), ("bmp", bmp), ("webp", webp)] {
        let got = decode_image(&bytes).unwrap();
        assert_eq!((got.width, got.height), (w, h), "{name} size");
        assert_eq!(got.rgba, rgba, "{name} pixels round-trip");
    }
}
