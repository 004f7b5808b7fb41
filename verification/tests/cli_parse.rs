use pixie::cli::{parse_grid, parse_hex_color, parse_u32, parse_zoom, IntErrorKind};
use pixie::domino;

#[test]
fn main_rejects_short_hex_colors() {
    assert!(parse_hex_color("fff").is_err());
    assert!(domino::parse_hex_color("fff").is_err());
}

#[test]
fn main_parses_six_digit_hex_colors() {
    assert_eq!(parse_hex_color("#f4a030").unwrap(), [0xf4, 0xa0, 0x30]);
    assert_eq!(domino::parse_hex_color("#f4a030").unwrap(), [0xf4, 0xa0, 0x30]);
}

#[test]
fn rejects_out_of_range_grid() {
    assert!(parse_grid("4").is_err());
    assert!(parse_grid("200").is_err());
}

#[test]
fn accepts_valid_grid_and_zoom() {
    assert_eq!(parse_grid("28").unwrap(), 28);
    assert_eq!(parse_zoom("5").unwrap(), 5);
}

#[test]
fn grid_and_zoom_error_messages() {
    assert_eq!(parse_grid("4").unwrap_err(), "grid must be between 8 and 128");
    assert_eq!(parse_grid("x").unwrap_err(), "invalid grid: invalid digit found in string");
    assert_eq!(parse_grid("").unwrap_err(), "invalid grid: cannot parse integer from empty string");
    assert_eq!(
        parse_zoom("99999999999").unwrap_err(),
        "invalid zoom: number too large to fit in target type"
    );
    assert_eq!(parse_zoom("33").unwrap_err(), "zoom must be between 1 and 32");
    assert_eq!(parse_zoom("+32").unwrap(), 32);
    assert_eq!(parse_grid("128").unwrap(), 128);
    assert_eq!(parse_grid("8").unwrap(), 8);
}

#[test]
fn parses_u32_like_std() {
    assert_eq!(parse_u32("0"), Ok(0));
    assert_eq!(parse_u32("4294967295"), Ok(u32::MAX));
    assert_eq!(parse_u32("4294967296"), Err(IntErrorKind::PosOverflow));
    assert_eq!(parse_u32("+"), Err(IntErrorKind::InvalidDigit));
    assert_eq!(parse_u32("-1"), Err(IntErrorKind::InvalidDigit));
    assert_eq!(parse_u32(""), Err(IntErrorKind::Empty));
    assert_eq!(parse_u32("99999999999x"), Err(IntErrorKind::PosOverflow));
    assert_eq!(parse_u32("12x99999999999"), Err(IntErrorKind::InvalidDigit));
    for s in ["0", "17", "+5", "", "+", "-", "-3", "1 2", "4294967295", "4294967296", "00000000000042"] {
        let ours = parse_u32(s);
        let std_ = s.parse::<u32>();
        match (ours, std_) {
            (Ok(a), Ok(b)) => assert_eq!(a, b),
            (Err(_), Err(_)) => {}
            _ => panic!("mismatch on {s:?}"),
        }
    }
}

#[test]
fn hex_color_error_messages() {
    assert_eq!(
        parse_hex_color("fff").unwrap_err(),
        "color must be a 6-digit hex value like ffffff"
    );
    assert_eq!(parse_hex_color("gg0000").unwrap_err(), "invalid red channel in color");
    assert_eq!(parse_hex_color("00gg00").unwrap_err(), "invalid green channel in color");
    assert_eq!(parse_hex_color("0000gg").unwrap_err(), "invalid blue channel in color");
    assert_eq!(parse_hex_color("##FFcc4D").unwrap(), [0xff, 0xcc, 0x4d]);
    // each channel is two hex digits: no signs
    assert_eq!(parse_hex_color("+f+a+3").unwrap_err(), "invalid red channel in color");
    assert_eq!(parse_hex_color("+f+f+f").unwrap_err(), "invalid red channel in color");
    assert_eq!(domino::parse_hex_color("ff+a00").unwrap_err(), "color has invalid hex digits");
    assert_eq!(domino::parse_hex_color("00gg00").unwrap_err(), "color has invalid hex digits");
    assert_eq!(domino::parse_hex_color("ffcc4d").unwrap(), [0xff, 0xcc, 0x4d]);
}

#[test]
fn hex_colors_with_multibyte_characters_are_errors() {
    // six bytes, but 'é' takes two of them: an error, whichever channel it falls in
    assert_eq!(parse_hex_color("a\u{e9}123").unwrap_err(), "invalid red channel in color");
    assert_eq!(parse_hex_color("ffa\u{e9}b").unwrap_err(), "invalid green channel in color");
    assert_eq!(parse_hex_color("ffff\u{e9}").unwrap_err(), "invalid blue channel in color");
    assert_eq!(parse_hex_color("\u{20ac}\u{20ac}").unwrap_err(), "invalid red channel in color");
    assert_eq!(domino::parse_hex_color("a\u{e9}123").unwrap_err(), "color has invalid hex digits");
    assert_eq!(parse_hex_color("\u{e9}\u{e9}\u{e9}").unwrap_err(), "invalid red channel in color");
}
