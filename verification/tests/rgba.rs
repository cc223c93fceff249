use thaimeleon_lib::rgba::{rgb_from_rgba, RgbaError};

#[test]
fn alpha_bytes_are_dropped() {
    let rgba = [1u8, 2, 3, 255, 4, 5, 6, 128];
    assert_eq!(rgb_from_rgba(&rgba, 2, 1), Ok(vec![1, 2, 3, 4, 5, 6]));
    assert_eq!(rgb_from_rgba(&rgba, 1, 2), Ok(vec![1, 2, 3, 4, 5, 6]));
}

#[test]
fn an_empty_image_has_no_bytes() {
    assert_eq!(rgb_from_rgba(&[], 0, 7), Ok(vec![]));
}

#[test]
fn wrong_length_is_reported() {
    let rgba = [1u8, 2, 3, 255, 4, 5, 6];
    assert_eq!(
        rgb_from_rgba(&rgba, 2, 1),
        Err(RgbaError::LengthMismatch { len: 7, expected: 8 })
    );
}

#[test]
fn overflowing_dimensions_are_reported() {
    assert_eq!(rgb_from_rgba(&[], u32::MAX, u32::MAX), Err(RgbaError::DimensionsOverflow));
}
