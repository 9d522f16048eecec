use std::io::Cursor;

use spritore::index::SpriteIndex;
use spritore::{build_sprite_sheet, BuildOptions, RenderedIcon};

fn icon(id: &str, width: u32, height: u32, pixels: Vec<u8>) -> RenderedIcon {
    RenderedIcon {
        id: id.to_owned(),
        width,
        height,
        pixels,
    }
}

fn decode_rgba(png_bytes: &[u8]) -> (u32, u32, png::ColorType, Vec<u8>) {
    let mut decoder = png::Decoder::new(Cursor::new(png_bytes));
    decoder.set_transformations(png::Transformations::EXPAND);
    let mut reader = decoder.read_info().unwrap();
    let encoded_color_type = reader.info().color_type;
    let mut pixels = vec![0; reader.output_buffer_size()];
    let frame = reader.next_frame(&mut pixels).unwrap();
    assert_eq!(frame.color_type, png::ColorType::Rgba);
    pixels.truncate(frame.buffer_size());
    (frame.width, frame.height, encoded_color_type, pixels)
}

fn compose_expected(width: u32, height: u32, icons: &[RenderedIcon], index: &SpriteIndex) -> Vec<u8> {
    let mut expected = vec![0; width as usize * height as usize * 4];
    for icon in icons {
        let entry = index.get(&icon.id).unwrap();
        for row in 0..icon.height {
            let source_start = (row * icon.width * 4) as usize;
            let source_end = source_start + (icon.width * 4) as usize;
            let destination_start = (((entry.y + row) * width + entry.x) * 4) as usize;
            let destination_end = destination_start + (icon.width * 4) as usize;
            expected[destination_start..destination_end]
                .copy_from_slice(&icon.pixels[source_start..source_end]);
        }
    }
    expected
}

#[test]
fn indexed_png_round_trips_to_the_composed_rgba_pixels() {
    let icons = vec![
        icon("red", 2, 1, vec![255, 0, 0, 255, 255, 0, 0, 128]),
        icon("green", 1, 2, vec![0, 255, 0, 255, 0, 255, 0, 64]),
    ];
    let sheet = build_sprite_sheet(&icons, 1, BuildOptions { fast: true }).unwrap();
    let (width, height, color_type, decoded) = decode_rgba(&sheet.png);
    assert_eq!(color_type, png::ColorType::Indexed);
    assert_eq!(decoded, compose_expected(width, height, &icons, &sheet.index));
}

#[test]
fn rgba_png_round_trips_to_the_composed_rgba_pixels() {
    let pixels = (0..257)
        .flat_map(|value| [(value & 0xff) as u8, (value >> 8) as u8, 127, 255])
        .collect();
    let icons = vec![icon("many-colors", 257, 1, pixels)];
    let sheet = build_sprite_sheet(&icons, 1, BuildOptions { fast: true }).unwrap();
    let (width, height, color_type, decoded) = decode_rgba(&sheet.png);
    assert_eq!(color_type, png::ColorType::Rgba);
    assert_eq!(decoded, compose_expected(width, height, &icons, &sheet.index));
}

#[test]
fn zopfli_sheet_round_trips_with_shared_images() {
    let icons = vec![
        icon("one", 2, 2, vec![10, 20, 30, 40, 50, 60, 70, 80, 90, 100, 110, 120, 130, 140, 150, 160]),
        icon("two", 1, 3, vec![1, 1, 1, 1, 2, 2, 2, 2, 3, 3, 3, 3]),
        icon("one-again", 2, 2, vec![10, 20, 30, 40, 50, 60, 70, 80, 90, 100, 110, 120, 130, 140, 150, 160]),
    ];
    let sheet = build_sprite_sheet(&icons, 2, BuildOptions { fast: false }).unwrap();
    let (width, height, _, decoded) = decode_rgba(&sheet.png);
    assert_eq!(decoded, compose_expected(width, height, &icons, &sheet.index));
    assert_eq!(sheet.index.get("one"), sheet.index.get("one-again"));
    assert_eq!(sheet.index.get("two").unwrap().pixel_ratio, 2);
}

#[test]
fn fast_and_zopfli_sheets_differ_only_in_compressed_data() {
    let icons = vec![
        icon("red", 2, 1, vec![255, 0, 0, 255, 255, 0, 0, 128]),
        icon("green", 1, 2, vec![0, 255, 0, 255, 0, 255, 0, 64]),
        icon("red-again", 2, 1, vec![255, 0, 0, 255, 255, 0, 0, 128]),
    ];
    let fast = build_sprite_sheet(&icons, 2, BuildOptions { fast: true }).unwrap();
    let zopfli = build_sprite_sheet(&icons, 2, BuildOptions { fast: false }).unwrap();
    assert_eq!(fast.index, zopfli.index);
    let idat = |png: &[u8]| png.windows(4).position(|tag| tag == b"IDAT").unwrap();
    assert_eq!(idat(&fast.png), idat(&zopfli.png));
    assert_eq!(fast.png[..idat(&fast.png) - 4], zopfli.png[..idat(&zopfli.png) - 4]);
    assert_eq!(fast.png[fast.png.len() - 12..], zopfli.png[zopfli.png.len() - 12..]);
    assert_eq!(decode_rgba(&fast.png).3, decode_rgba(&zopfli.png).3);
}
