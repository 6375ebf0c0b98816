use ipp::ColorEntry;
use ipp::ColorMap;
use ipp::Rgb8;

fn rgb(r: u8, g: u8, b: u8) -> Rgb8 {
    Rgb8 { r, g, b }
}

fn entry(full: &str, short: &str) -> ColorEntry {
    ColorEntry { full_name: full.to_owned(), one_char: short.to_owned() }
}

#[test]
fn fresh_registry_has_nothing() {
    let map = ColorMap::new();
    assert!(!map.has(rgb(1, 2, 3)));
}

#[test]
fn added_color_has_both_labels() {
    let mut map = ColorMap::new();
    map.add_entry(rgb(200, 0, 0), entry("Red", "R"));
    assert!(map.has(rgb(200, 0, 0)));
    assert_eq!(map.full_name(rgb(200, 0, 0)).unwrap(), "Red");
    assert_eq!(map.one_char(rgb(200, 0, 0)).unwrap(), "R");
}

#[test]
fn other_colors_stay_absent() {
    let mut map = ColorMap::new();
    map.add_entry(rgb(200, 0, 0), entry("Red", "R"));
    assert!(!map.has(rgb(0, 200, 0)));
}

#[test]
fn last_write_wins() {
    let mut map = ColorMap::new();
    map.add_entry(rgb(200, 0, 0), entry("Red", "R"));
    map.add_entry(rgb(200, 0, 0), entry("Crimson", "C"));
    assert_eq!(map.full_name(rgb(200, 0, 0)).unwrap(), "Crimson");
    assert_eq!(map.one_char(rgb(200, 0, 0)).unwrap(), "C");
}

#[test]
fn unregistered_full_name_is_lookup_error() {
    let map = ColorMap::new();
    let err = map.full_name(rgb(9, 9, 9)).unwrap_err();
    assert_eq!(err.color, rgb(9, 9, 9));
}

#[test]
fn unregistered_one_char_is_lookup_error() {
    let mut map = ColorMap::new();
    map.add_entry(rgb(200, 0, 0), entry("Red", "R"));
    let err = map.one_char(rgb(9, 9, 9)).unwrap_err();
    assert_eq!(err.color, rgb(9, 9, 9));
}
