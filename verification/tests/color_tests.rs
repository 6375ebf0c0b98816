use ipp::color::separator_color;
use ipp::Rgb8;

#[test]
fn to_hex_example() {
    assert_eq!(Rgb8 { r: 255, g: 0, b: 16 }.to_hex(), "#FF0010");
}

#[test]
fn to_hex_black_is_zero_padded() {
    assert_eq!(Rgb8 { r: 0, g: 0, b: 0 }.to_hex(), "#000000");
}

#[test]
fn to_hex_white() {
    assert_eq!(Rgb8 { r: 255, g: 255, b: 255 }.to_hex(), "#FFFFFF");
}

#[test]
fn to_hex_separator() {
    assert_eq!(separator_color().to_hex(), "#202020");
}

#[test]
fn to_hex_mixed_digits() {
    assert_eq!(Rgb8 { r: 1, g: 171, b: 205 }.to_hex(), "#01ABCD");
}

#[test]
fn separator_is_dark_gray() {
    assert_eq!(separator_color(), Rgb8 { r: 32, g: 32, b: 32 });
}
