use spritore::png::assemble;
use spritore::png::{crc32, encode, filter_scanlines, paeth, FilterStrategy};

#[test]
fn crc32_matches_the_standard_known_value() {
    assert_eq!(crc32(b"123456789"), 0xcbf4_3926);
}

#[test]
fn paeth_uses_the_png_tie_break_order() {
    assert_eq!(paeth(10, 10, 10), 10);
    assert_eq!(paeth(10, 20, 30), 10);
    assert_eq!(paeth(30, 10, 20), 20);
}

#[test]
fn msad_ties_choose_the_lowest_filter_number() {
    let filtered = filter_scanlines(&[0, 0, 0, 0], 4, 1, 1, FilterStrategy::AdaptiveMsad);
    assert_eq!(filtered[0], 0);
}

#[test]
fn uniform_strategy_applies_the_same_filter_to_every_row() {
    let filtered = filter_scanlines(&[1, 2, 3, 4], 2, 2, 1, FilterStrategy::Uniform(2));
    assert_eq!(filtered, vec![2, 1, 2, 2, 2, 2]);
}

#[test]
fn color_type_switches_after_256_unique_colors() {
    let rgba_256 = (0..256)
        .flat_map(|value| [value as u8, 0, 0, 255])
        .collect::<Vec<_>>();
    let indexed = encode(256, 1, &rgba_256, true);
    assert_eq!(indexed[25], 3);

    let rgba_257 = (0..257)
        .flat_map(|value| [(value & 0xff) as u8, (value >> 8) as u8, 0, 255])
        .collect::<Vec<_>>();
    let rgba = encode(257, 1, &rgba_257, true);
    assert_eq!(rgba[25], 6);
}

#[test]
fn crc32_of_nothing_is_zero() {
    assert_eq!(crc32(&[]), 0);
}

#[test]
fn paeth_prefers_above_then_upper_left() {
    assert_eq!(paeth(0, 5, 10), 0);
    assert_eq!(paeth(5, 0, 10), 0);
    assert_eq!(paeth(1, 2, 3), 1);
    assert_eq!(paeth(200, 100, 150), 150);
}

#[test]
fn encoded_file_starts_with_the_signature_and_ends_with_iend() {
    let png = encode(1, 1, &[1, 2, 3, 4], true);
    assert_eq!(&png[..8], b"\x89PNG\r\n\x1a\n");
    assert_eq!(&png[12..16], b"IHDR");
    assert_eq!(&png[png.len() - 8..png.len() - 4], b"IEND");
    assert_eq!(
        u32::from_be_bytes(png[png.len() - 4..].try_into().unwrap()),
        crc32(b"IEND")
    );
}

#[test]
fn both_compressors_store_zlib_streams() {
    let rgba: Vec<u8> = (0..64).map(|value| (value * 37 % 251) as u8).collect();
    for fast in [true, false] {
        let png = encode(4, 4, &rgba, fast);
        let position = png.windows(4).position(|tag| tag == b"IDAT").unwrap();
        let length = u32::from_be_bytes(png[position - 4..position].try_into().unwrap()) as usize;
        let data = &png[position + 4..position + 4 + length];
        assert_eq!(data[0] & 0x0f, 8);
        assert_eq!((u16::from(data[0]) * 256 + u16::from(data[1])) % 31, 0);
        assert_ne!(data.len(), 4 * 4 + 4);
    }
}

#[test]
fn assembled_file_frames_the_compressed_data() {
    let rgba = assemble(2, 3, &None, &vec![7, 8, 9]);
    assert_eq!(&rgba[..8], b"\x89PNG\r\n\x1a\n");
    assert_eq!(&rgba[8..12], &[0, 0, 0, 13]);
    assert_eq!(&rgba[16..29], &[0, 0, 0, 2, 0, 0, 0, 3, 8, 6, 0, 0, 0]);
    assert_eq!(&rgba[33..37], &[0, 0, 0, 3]);
    assert_eq!(&rgba[37..41], b"IDAT");
    assert_eq!(&rgba[41..44], &[7, 8, 9]);
    assert_eq!(rgba.len(), 8 + 25 + 15 + 12);

    let indexed = assemble(1, 1, &Some(vec![0x1122_3344]), &vec![]);
    assert_eq!(indexed[25], 3);
    assert_eq!(&indexed[37..41], b"PLTE");
    assert_eq!(&indexed[41..44], &[0x11, 0x22, 0x33]);
    assert_eq!(&indexed[52..56], b"tRNS");
    assert_eq!(indexed[56], 0x44);
}
