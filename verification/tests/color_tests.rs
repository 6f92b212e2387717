use waverender::color::{parse_into_color, parse_to_u8, ParseError};
use waverender::raster::Color;

fn rgba(red: u8, green: u8, blue: u8, alpha: u8) -> Color {
    Color { red, green, blue, alpha }
}

#[test]
fn is_transparent() {
    let color = parse_into_color("0,0,0,0").unwrap();
    assert_eq!(color, rgba(0, 0, 0, 0));
    let color = parse_into_color("0, 0, 0, 0").unwrap();
    assert_eq!(color, rgba(0, 0, 0, 0));
    let color = parse_into_color("none").unwrap();
    assert_eq!(color, rgba(0, 0, 0, 0));
    let color = parse_into_color("transparent").unwrap();
    assert_eq!(color, rgba(0, 0, 0, 0));
}

#[test]
fn is_black() {
    let color = parse_into_color("0,0,0,255").unwrap();
    assert_eq!(color, rgba(0, 0, 0, 255));
    let color = parse_into_color("0, 0, 0, 1.0").unwrap();
    assert_eq!(color, rgba(0, 0, 0, 255));
    let color = parse_into_color("black").unwrap();
    assert_eq!(color, rgba(0, 0, 0, 255));
}

#[test]
fn keywords_full_intensity() {
    assert_eq!(parse_into_color("red").unwrap(), rgba(255, 0, 0, 255));
    assert_eq!(parse_into_color("yellow").unwrap(), rgba(255, 255, 0, 255));
    assert_eq!(parse_into_color("green").unwrap(), rgba(0, 255, 0, 255));
    assert_eq!(parse_into_color("blue").unwrap(), rgba(0, 0, 255, 255));
    assert_eq!(parse_into_color("cyan").unwrap(), rgba(0, 255, 255, 255));
    assert_eq!(parse_into_color("magenta").unwrap(), rgba(255, 0, 255, 255));
    assert_eq!(parse_into_color("white").unwrap(), rgba(255, 255, 255, 255));
}

#[test]
fn keywords_ignore_case_and_whitespace() {
    assert_eq!(parse_into_color("  BLACK  ").unwrap(), rgba(0, 0, 0, 255));
    assert_eq!(parse_into_color("\tTransparent\n").unwrap(), rgba(0, 0, 0, 0));
}

#[test]
fn single_field_gray() {
    assert_eq!(parse_into_color("128").unwrap(), rgba(128, 128, 128, 255));
    assert_eq!(parse_into_color("0.5").unwrap(), rgba(127, 127, 127, 255));
}

#[test]
fn two_fields_gray_alpha() {
    assert_eq!(parse_into_color("1,2").unwrap(), rgba(1, 1, 1, 2));
}

#[test]
fn three_fields_rgb() {
    assert_eq!(parse_into_color("10, 20, 30").unwrap(), rgba(10, 20, 30, 255));
}

#[test]
fn too_many_fields_is_unknown() {
    assert!(matches!(
        parse_into_color("1,2,3,4,5"),
        Err(ParseError::UnknownColor)
    ));
    assert!(matches!(
        parse_into_color("1,2,3,4,5,6"),
        Err(ParseError::UnknownColor)
    ));
}

#[test]
fn bad_field_names_itself() {
    match parse_into_color("12, oops, 34") {
        Err(ParseError::InvalidChannel(f)) => assert_eq!(f, "oops"),
        other => panic!("expected an invalid channel, got {:?}", other.map(|c| c.red)),
    }
    match parse_into_color("1.2.3") {
        Err(ParseError::InvalidChannel(f)) => assert_eq!(f, "1.2.3"),
        _ => panic!("expected an invalid channel"),
    }
}

#[test]
fn channel_integer_clamps() {
    assert_eq!(parse_to_u8("300").unwrap(), 255);
    assert_eq!(parse_to_u8("255").unwrap(), 255);
    assert_eq!(parse_to_u8("0").unwrap(), 0);
    assert_eq!(parse_to_u8("+7").unwrap(), 7);
}

#[test]
fn channel_integer_overflow_is_invalid() {
    assert!(matches!(
        parse_to_u8("99999999999"),
        Err(ParseError::InvalidChannel(_))
    ));
}

#[test]
fn channel_decimal_scales_and_clamps() {
    assert_eq!(parse_to_u8("1.0").unwrap(), 255);
    assert_eq!(parse_to_u8("2.5").unwrap(), 255);
    assert_eq!(parse_to_u8("0.0").unwrap(), 0);
    assert_eq!(parse_to_u8("-0.5").unwrap(), 0);
    assert_eq!(parse_to_u8(" 0.5 ").unwrap(), 127);
    assert_eq!(parse_to_u8(".5").unwrap(), 127);
    assert_eq!(parse_to_u8("5.").unwrap(), 255);
}

#[test]
fn channel_exponents_shift_the_value() {
    assert_eq!(parse_to_u8("2.5e-1").unwrap(), 63);
    assert_eq!(parse_to_u8("2.5e-2").unwrap(), 6);
    assert_eq!(parse_to_u8("1.0e3").unwrap(), 255);
    assert_eq!(parse_to_u8("1.5E2").unwrap(), 255);
    assert_eq!(parse_to_u8(".5e1").unwrap(), 255);
    assert_eq!(parse_to_u8("5.e-1").unwrap(), 127);
    assert_eq!(parse_to_u8("-2.5e-1").unwrap(), 0);
    assert_eq!(parse_to_u8("0.0e99999999999999999999").unwrap(), 0);
    assert_eq!(parse_to_u8("1.0e99999999999999999999").unwrap(), 255);
    assert_eq!(parse_to_u8("1.0e-99999999999999999999").unwrap(), 0);
}

#[test]
fn channel_malformed_exponents_are_invalid() {
    assert!(matches!(parse_to_u8("1.0e"), Err(ParseError::InvalidChannel(_))));
    assert!(matches!(parse_to_u8("1.0e+"), Err(ParseError::InvalidChannel(_))));
    assert!(matches!(parse_to_u8("1.0e1.5"), Err(ParseError::InvalidChannel(_))));
    assert!(matches!(parse_to_u8("1e5"), Err(ParseError::InvalidChannel(_))));
}

#[test]
fn unicode_whitespace_and_kelvin_fold() {
    assert_eq!(
        parse_into_color("\u{00A0}black\u{2009}").unwrap(),
        rgba(0, 0, 0, 255)
    );
    assert_eq!(parse_into_color("blac\u{212A}").unwrap(), rgba(0, 0, 0, 255));
    assert_eq!(parse_to_u8("\u{3000}128\u{3000}").unwrap(), 128);
}

#[test]
fn channel_garbage_is_invalid() {
    assert!(matches!(parse_to_u8("abc"), Err(ParseError::InvalidChannel(_))));
    assert!(matches!(parse_to_u8(""), Err(ParseError::InvalidChannel(_))));
    assert!(matches!(parse_to_u8("."), Err(ParseError::InvalidChannel(_))));
    assert!(matches!(parse_to_u8("-5"), Err(ParseError::InvalidChannel(_))));
}
