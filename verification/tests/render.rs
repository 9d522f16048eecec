use spritore::render::straight_icon;
use spritore::sheet::Error;

#[test]
fn empty_pixmaps_are_zero_size_errors() {
    assert!(matches!(
        straight_icon("zero-ratio", 0, 0, &[]),
        Err(Error::ZeroSize { id }) if id == "zero-ratio"
    ));
    assert!(matches!(
        straight_icon("flat", 3, 0, &[]),
        Err(Error::ZeroSize { id }) if id == "flat"
    ));
}

#[test]
fn demultiplying_keeps_alpha_and_opaque_pixels() {
    let icon = straight_icon("dot", 2, 2, &[10, 20, 30, 255, 64, 0, 32, 128, 0, 0, 0, 0, 10, 0, 0, 20])
        .ok()
        .unwrap();
    assert_eq!(icon.id, "dot");
    assert_eq!((icon.width, icon.height), (2, 2));
    assert_eq!(icon.pixels, vec![10, 20, 30, 255, 128, 0, 64, 128, 0, 0, 0, 0, 128, 0, 0, 20]);
}
