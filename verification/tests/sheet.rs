use spritore::sheet::sheet_fits;
use spritore::index::{SpriteIndex, SpriteIndexEntry};
use spritore::json::index_to_json;
use spritore::sheet::{build_sprite_sheet, deduplicate, BuildOptions, Error, RenderedIcon};

fn icon(id: &str, width: u32, height: u32, pixels: Vec<u8>) -> RenderedIcon {
    RenderedIcon {
        id: id.to_owned(),
        width,
        height,
        pixels,
    }
}

fn entry(x: u32, y: u32, width: u32, height: u32, pixel_ratio: u8) -> SpriteIndexEntry {
    SpriteIndexEntry {
        x,
        y,
        width,
        height,
        pixel_ratio,
    }
}

#[test]
fn deduplicates_identical_pixels_using_the_first_id() {
    let icons = vec![
        icon("z-copy", 1, 1, vec![10, 20, 30, 255]),
        icon("a-original", 1, 1, vec![10, 20, 30, 255]),
    ];
    let mut ordered: Vec<_> = icons.iter().collect();
    ordered.sort_by(|left, right| left.id.cmp(&right.id));
    let deduplicated = deduplicate(&ordered);
    assert!(std::ptr::eq(deduplicated.representatives[0], ordered[0]));

    let sheet = build_sprite_sheet(&icons, 1, BuildOptions { fast: true }).unwrap();
    assert_eq!(
        sheet.index.get("a-original").unwrap(),
        sheet.index.get("z-copy").unwrap()
    );
    assert_eq!(u32::from_be_bytes(sheet.png[16..20].try_into().unwrap()), 3);
    assert_eq!(u32::from_be_bytes(sheet.png[20..24].try_into().unwrap()), 3);
}

#[test]
fn reports_required_error_cases() {
    assert!(matches!(
        build_sprite_sheet(&[], 1, BuildOptions::default()),
        Err(Error::Empty)
    ));

    let duplicate = vec![
        icon("same", 1, 1, vec![0; 4]),
        icon("same", 1, 1, vec![255; 4]),
    ];
    assert!(matches!(
        build_sprite_sheet(&duplicate, 1, BuildOptions::default()),
        Err(Error::DuplicateId(id)) if id == "same"
    ));

    let zero = vec![icon("zero", 0, 1, Vec::new())];
    assert!(matches!(
        build_sprite_sheet(&zero, 1, BuildOptions::default()),
        Err(Error::ZeroSize { id }) if id == "zero"
    ));
}

#[test]
fn index_json_format_and_escaping_are_fixed() {
    let mut index = SpriteIndex::new();
    index.insert("a\n\"".to_owned(), entry(1, 2, 3, 4, 2));
    index.insert("b".to_owned(), entry(5, 6, 7, 8, 2));
    assert_eq!(
        index_to_json(&index),
        [
            "{\n",
            "  \"a\\n\\\"\": {\n",
            "    \"x\": 1,\n",
            "    \"y\": 2,\n",
            "    \"width\": 3,\n",
            "    \"height\": 4,\n",
            "    \"pixelRatio\": 2\n",
            "  },\n",
            "  \"b\": {\n",
            "    \"x\": 5,\n",
            "    \"y\": 6,\n",
            "    \"width\": 7,\n",
            "    \"height\": 8,\n",
            "    \"pixelRatio\": 2\n",
            "  }\n",
            "}\n",
        ]
        .concat(),
    );
    assert_eq!(index_to_json(&SpriteIndex::new()), "{}\n");
}

#[test]
fn build_options_default_to_zopfli() {
    assert!(!BuildOptions::default().fast);
}

#[test]
fn the_smallest_repeated_id_is_reported() {
    let icons = vec![
        icon("z", 1, 1, vec![0; 4]),
        icon("m", 1, 1, vec![1; 4]),
        icon("z", 1, 1, vec![2; 4]),
        icon("m", 1, 1, vec![3; 4]),
    ];
    assert!(matches!(
        build_sprite_sheet(&icons, 1, BuildOptions { fast: true }),
        Err(Error::DuplicateId(id)) if id == "m"
    ));
}

#[test]
fn a_repeated_id_is_reported_before_a_zero_size() {
    let icons = vec![
        icon("a", 0, 1, Vec::new()),
        icon("b", 1, 1, vec![0; 4]),
        icon("b", 1, 1, vec![0; 4]),
    ];
    assert!(matches!(
        build_sprite_sheet(&icons, 1, BuildOptions { fast: true }),
        Err(Error::DuplicateId(id)) if id == "b"
    ));
    let zero_height = vec![icon("b", 1, 1, vec![0; 4]), icon("a", 2, 0, Vec::new())];
    assert!(matches!(
        build_sprite_sheet(&zero_height, 1, BuildOptions { fast: true }),
        Err(Error::ZeroSize { id }) if id == "a"
    ));
}

#[test]
fn entries_carry_the_size_and_ratio_inside_the_margin() {
    let icons = vec![icon("only", 2, 3, vec![7; 24])];
    let sheet = build_sprite_sheet(&icons, 3, BuildOptions { fast: true }).unwrap();
    assert_eq!(sheet.index.len(), 1);
    assert_eq!(sheet.index.get("only").unwrap(), entry(1, 1, 2, 3, 3));
    assert_eq!(u32::from_be_bytes(sheet.png[16..20].try_into().unwrap()), 4);
    assert_eq!(u32::from_be_bytes(sheet.png[20..24].try_into().unwrap()), 5);
}

#[test]
fn input_order_does_not_change_the_sheet() {
    let make = |order: &[usize]| {
        let all = [
            ("dot", 2u32, 2u32, vec![255u8, 0, 0, 255, 0, 255, 0, 255, 0, 0, 255, 255, 9, 9, 9, 9]),
            ("bar", 3, 1, vec![1, 2, 3, 4, 5, 6, 7, 8, 9, 10, 11, 12]),
            ("dot-copy", 2, 2, vec![255, 0, 0, 255, 0, 255, 0, 255, 0, 0, 255, 255, 9, 9, 9, 9]),
            ("tall", 1, 4, vec![200; 16]),
        ];
        order
            .iter()
            .map(|&k| icon(all[k].0, all[k].1, all[k].2, all[k].3.clone()))
            .collect::<Vec<_>>()
    };
    let first = build_sprite_sheet(&make(&[0, 1, 2, 3]), 1, BuildOptions { fast: true }).unwrap();
    for order in [[3, 2, 1, 0], [2, 0, 3, 1], [1, 3, 0, 2]] {
        let sheet = build_sprite_sheet(&make(&order), 1, BuildOptions { fast: true }).unwrap();
        assert_eq!(first.png, sheet.png);
        assert_eq!(first.index, sheet.index);
    }
    assert_eq!(first.index.get("dot"), first.index.get("dot-copy"));
}

#[test]
fn index_keeps_ids_in_byte_order_and_replaces_on_insert() {
    let mut index = SpriteIndex::new();
    assert!(index.is_empty());
    assert_eq!(index.insert("b".to_owned(), entry(1, 1, 1, 1, 1)), None);
    assert_eq!(index.insert("B".to_owned(), entry(2, 2, 2, 2, 1)), None);
    assert_eq!(index.insert("a".to_owned(), entry(3, 3, 3, 3, 1)), None);
    assert_eq!(
        index.insert("b".to_owned(), entry(4, 4, 4, 4, 1)),
        Some(entry(1, 1, 1, 1, 1))
    );
    assert_eq!(index.len(), 3);
    assert_eq!(index.id_at(0), "B");
    assert_eq!(index.id_at(1), "a");
    assert_eq!(index.id_at(2), "b");
    assert_eq!(index.entry_at(2), entry(4, 4, 4, 4, 1));
    assert_eq!(index.get("missing"), None);
}

#[test]
fn json_escapes_control_characters_and_keeps_others() {
    let mut index = SpriteIndex::new();
    index.insert("\u{1}\t\\é".to_owned(), entry(10, 200, 3000, 4, 255));
    assert_eq!(
        index_to_json(&index),
        [
            "{\n",
            "  \"\\u0001\\t\\\\é\": {\n",
            "    \"x\": 10,\n",
            "    \"y\": 200,\n",
            "    \"width\": 3000,\n",
            "    \"height\": 4,\n",
            "    \"pixelRatio\": 255\n",
            "  }\n",
            "}\n",
        ]
        .concat(),
    );
}

#[test]
fn error_messages_match_their_variants() {
    let invalid = Error::InvalidSvg {
        id: "bad".to_owned(),
        reason: "oops".to_owned(),
    };
    assert_eq!(invalid.message(), "invalid SVG for icon `bad`: oops");
    assert_eq!(Error::DuplicateId("x".to_owned()).message(), "duplicate icon id `x`");
    assert_eq!(Error::Empty.message(), "no icons given");
    assert_eq!(
        Error::ZeroSize { id: "z".to_owned() }.message(),
        "icon `z` has zero size"
    );
}

#[test]
fn sheet_limits_are_checked_before_building() {
    let good = vec![icon("a", 2, 1, vec![0; 8]), icon("b", 1, 1, vec![1; 4])];
    assert!(sheet_fits(&good));
    let short = vec![icon("a", 2, 2, vec![0; 8])];
    assert!(!sheet_fits(&short));
    let failing = vec![icon("a", 2, 2, vec![0; 8]), icon("a", 1, 1, vec![0; 4])];
    assert!(sheet_fits(&failing));
    assert!(sheet_fits(&[]));
}
