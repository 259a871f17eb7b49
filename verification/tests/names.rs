use mpx::names::{parse_color_type, parse_filter_opt};
use mpx::{ColorType, FilterType};

#[test]
fn color_type_names() {
    assert_eq!(parse_color_type("gray"), Some(ColorType::Gray));
    assert_eq!(parse_color_type("Grey"), Some(ColorType::Gray));
    assert_eq!(parse_color_type("L"), Some(ColorType::Gray));
    assert_eq!(parse_color_type("GrayA"), Some(ColorType::GrayA));
    assert_eq!(parse_color_type("la"), Some(ColorType::GrayA));
    assert_eq!(parse_color_type("RGB"), Some(ColorType::Rgb));
    assert_eq!(parse_color_type("rgba"), Some(ColorType::Rgba));
    assert_eq!(parse_color_type("rgbx"), None);
    assert_eq!(parse_color_type(""), None);
    assert_eq!(parse_color_type("gräy"), None);
}

#[test]
fn filter_names() {
    assert_eq!(parse_filter_opt("none"), FilterType::NoFilter);
    assert_eq!(parse_filter_opt("SUB"), FilterType::Sub);
    assert_eq!(parse_filter_opt("Up"), FilterType::Up);
    assert_eq!(parse_filter_opt("average"), FilterType::Average);
    assert_eq!(parse_filter_opt("paeth"), FilterType::Paeth);
    assert_eq!(parse_filter_opt("Adaptive"), FilterType::Adaptive);
    // anything else falls back to Paeth
    assert_eq!(parse_filter_opt("median"), FilterType::Paeth);
    assert_eq!(parse_filter_opt(""), FilterType::Paeth);
}
