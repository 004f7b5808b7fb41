//! Command-line value parsing and the SVG wrapper of the logo generator.

use vstd::prelude::*;

use vstd::string::StringSliceAdditionalSpecFns;

use crate::raster::Image;
pub use crate::svg::base64_encode;
use crate::svg::{image_to_svg, png_svg_result, PngEncodeError};

verus! {

/// Why a decimal integer failed to parse (the cases of std's `IntErrorKind`
/// that an unsigned parse can produce).
#[derive(Clone, Copy, Debug, PartialEq, Eq)]
pub enum IntErrorKind {
    Empty,
    InvalidDigit,
    PosOverflow,
}

/// The text std's `ParseIntError` displays for each kind.
pub open spec fn int_error_text(k: IntErrorKind) -> Seq<char> {
    match k {
        IntErrorKind::Empty => "cannot parse integer from empty string"@,
        IntErrorKind::InvalidDigit => "invalid digit found in string"@,
        IntErrorKind::PosOverflow => "number too large to fit in target type"@,
    }
}

pub fn int_error_message(k: IntErrorKind) -> (s: String)
    ensures
        s@ == int_error_text(k),
{
    match k {
        IntErrorKind::Empty => String::from_str("cannot parse integer from empty string"),
        IntErrorKind::InvalidDigit => String::from_str("invalid digit found in string"),
        IntErrorKind::PosOverflow => String::from_str("number too large to fit in target type"),
    }
}

pub open spec fn is_dec_digit(b: u8) -> bool {
    48 <= b <= 57
}

/// Decimal digits read left to right: the first byte that is not a digit, or
/// the first prefix whose value exceeds `u32::MAX`, decides the error.
pub open spec fn dec_digits_value(ds: Seq<u8>) -> Result<u32, IntErrorKind>
    decreases ds.len(),
{
    if ds.len() == 0 {
        Ok(0)
    } else {
        match dec_digits_value(ds.drop_last()) {
            Err(e) => Err(e),
            Ok(v) => {
                let b = ds.last();
                if !is_dec_digit(b) {
                    Err(IntErrorKind::InvalidDigit)
                } else if v * 10 + (b - 48) > u32::MAX {
                    Err(IntErrorKind::PosOverflow)
                } else {
                    Ok((v * 10 + (b - 48)) as u32)
                }
            },
        }
    }
}

/// `str::parse::<u32>` over the string's bytes: an optional leading '+', then
/// decimal digits.
pub open spec fn spec_parse_u32(bs: Seq<u8>) -> Result<u32, IntErrorKind> {
    if bs.len() == 0 {
        Err(IntErrorKind::Empty)
    } else if bs.len() == 1 && (bs[0] == 43 || bs[0] == 45) {
        Err(IntErrorKind::InvalidDigit)
    } else if bs[0] == 43 {
        dec_digits_value(bs.drop_first())
    } else {
        dec_digits_value(bs)
    }
}

/// Parse a `u32` in decimal as `str::parse::<u32>` does.
pub fn parse_u32(raw: &str) -> (r: Result<u32, IntErrorKind>)
    ensures
        r == spec_parse_u32(raw.spec_bytes()),
{
    let bs = raw.as_bytes();
    let n = bs.len();
    if n == 0 {
        return Err(IntErrorKind::Empty);
    }
    if n == 1 && (bs[0] == 43 || bs[0] == 45) {
        return Err(IntErrorKind::InvalidDigit);
    }
    let start: usize = if bs[0] == 43 { 1 } else { 0 };
    let ghost ds = if bs[0] == 43 { bs@.drop_first() } else { bs@ };
    assert(ds == bs@.subrange(start as int, n as int));
    let mut v: u32 = 0;
    let mut i: usize = start;
    while i < n
        invariant
            n == bs@.len(),
            bs@ == raw.spec_bytes(),
            start <= i <= n,
            ds == bs@.subrange(start as int, n as int),
            spec_parse_u32(bs@) == dec_digits_value(ds),
            dec_digits_value(ds.take(i - start)) == Ok::<u32, IntErrorKind>(v),
        decreases n - i,
    {
        let b = bs[i];
        proof {
            let t = ds.take(i + 1 - start);
            assert(t.drop_last() == ds.take(i - start));
            assert(t.last() == b);
        }
        if !(48 <= b && b <= 57) {
            proof {
                lemma_dec_error_persists(ds, (i + 1 - start) as int);
            }
            return Err(IntErrorKind::InvalidDigit);
        }
        let d = (b - 48) as u32;
        assert(v > (u32::MAX - d) / 10 <==> v * 10 + d > u32::MAX) by (nonlinear_arith)
            requires d < 10;
        if v > (u32::MAX - d) / 10 {
            proof {
                lemma_dec_error_persists(ds, (i + 1 - start) as int);
            }
            return Err(IntErrorKind::PosOverflow);
        }
        v = v * 10 + d;
        i += 1;
    }
    assert(ds.take(n - start) == ds);
    Ok(v)
}

/// Once a prefix of the digits fails, the whole string fails the same way.
pub proof fn lemma_dec_error_persists(ds: Seq<u8>, k: int)
    requires
        0 <= k <= ds.len(),
        dec_digits_value(ds.take(k)) is Err,
    ensures
        dec_digits_value(ds) == dec_digits_value(ds.take(k)),
    decreases ds.len() - k,
{
    if k < ds.len() {
        let t = ds.take(k + 1);
        assert(t.drop_last() == ds.take(k));
        lemma_dec_error_persists(ds, k + 1);
    } else {
        assert(ds.take(k) == ds);
    }
}

/// What `parse_grid` and `parse_zoom` answer for a number outside its range or
/// an unparsable value.
pub open spec fn spec_parse_ranged(
    bs: Seq<u8>,
    lo: u32,
    hi: u32,
    range_msg: Seq<char>,
    what: Seq<char>,
) -> Result<u32, Seq<char>> {
    match spec_parse_u32(bs) {
        Ok(n) => if lo <= n <= hi {
            Ok(n)
        } else {
            Err(range_msg)
        },
        Err(k) => Err("invalid "@ + what + ": "@ + int_error_text(k)),
    }
}

pub open spec fn result_view(r: Result<u32, String>) -> Result<u32, Seq<char>> {
    match r {
        Ok(n) => Ok(n),
        Err(s) => Err(s@),
    }
}

/// Logical pixels per emoji side: 8 to 128.
pub fn parse_grid(raw: &str) -> (r: Result<u32, String>)
    ensures
        result_view(r) == spec_parse_ranged(
            raw.spec_bytes(),
            8,
            128,
            "grid must be between 8 and 128"@,
            "grid"@,
        ),
{
    match parse_u32(raw) {
        Ok(n) => if 8 <= n && n <= 128 {
            Ok(n)
        } else {
            Err(String::from_str("grid must be between 8 and 128"))
        },
        Err(k) => {
            let msg = String::from_str("invalid grid: ").concat(int_error_message(k).as_str());
            proof {
                assert("invalid grid: "@ == "invalid "@ + "grid"@ + ": "@) by {
                    reveal_strlit("invalid grid: ");
                    reveal_strlit("invalid ");
                    reveal_strlit("grid");
                    reveal_strlit(": ");
                }
            }
            Err(msg)
        },
    }
}

/// Output pixels per logical pixel: 1 to 32.
pub fn parse_zoom(raw: &str) -> (r: Result<u32, String>)
    ensures
        result_view(r) == spec_parse_ranged(
            raw.spec_bytes(),
            1,
            32,
            "zoom must be between 1 and 32"@,
            "zoom"@,
        ),
{
    match parse_u32(raw) {
        Ok(n) => if 1 <= n && n <= 32 {
            Ok(n)
        } else {
            Err(String::from_str("zoom must be between 1 and 32"))
        },
        Err(k) => {
            let msg = String::from_str("invalid zoom: ").concat(int_error_message(k).as_str());
            proof {
                assert("invalid zoom: "@ == "invalid "@ + "zoom"@ + ": "@) by {
                    reveal_strlit("invalid zoom: ");
                    reveal_strlit("invalid ");
                    reveal_strlit("zoom");
                    reveal_strlit(": ");
                }
            }
            Err(msg)
        },
    }
}

/// The value of a hexadecimal digit, either case (`char::to_digit(16)`).
pub open spec fn hex_digit_value(b: u8) -> Option<u8> {
    if 48 <= b <= 57 {
        Some((b - 48) as u8)
    } else if 97 <= b <= 102 {
        Some((b - 87) as u8)
    } else if 65 <= b <= 70 {
        Some((b - 55) as u8)
    } else {
        None
    }
}

/// One color channel written as two hexadecimal digits, either case; any
/// other byte (a sign, or part of a multi-byte character) makes it invalid.
pub open spec fn spec_hex_pair(a: u8, b: u8) -> Option<u8> {
    match (hex_digit_value(a), hex_digit_value(b)) {
        (Some(x), Some(y)) => Some((16 * x + y) as u8),
        _ => None,
    }
}

/// The bytes left after `trim_start_matches('#')`.
pub open spec fn trim_hashes(bs: Seq<u8>) -> Seq<u8>
    decreases bs.len(),
{
    if bs.len() > 0 && bs[0] == 35 {
        trim_hashes(bs.drop_first())
    } else {
        bs
    }
}

fn hex_digit_of(b: u8) -> (r: Option<u8>)
    ensures
        r == hex_digit_value(b),
{
    if 48 <= b && b <= 57 {
        Some(b - 48)
    } else if 97 <= b && b <= 102 {
        Some(b - 87)
    } else if 65 <= b && b <= 70 {
        Some(b - 55)
    } else {
        None
    }
}

/// One color channel written as two hex digits.
pub fn hex_pair(a: u8, b: u8) -> (r: Option<u8>)
    ensures
        r == spec_hex_pair(a, b),
{
    match (hex_digit_of(a), hex_digit_of(b)) {
        (Some(x), Some(y)) => Some(16 * x + y),
        _ => None,
    }
}

/// Index of the first byte that is not '#'.
pub fn count_leading_hashes(bs: &[u8]) -> (k: usize)
    ensures
        k <= bs@.len(),
        trim_hashes(bs@) == bs@.skip(k as int),
{
    let mut k: usize = 0;
    assert(bs@.skip(0) == bs@);
    while k < bs.len() && bs[k] == 35
        invariant
            k <= bs@.len(),
            trim_hashes(bs@) == trim_hashes(bs@.skip(k as int)),
        decreases bs@.len() - k,
    {
        assert(bs@.skip(k as int).drop_first() == bs@.skip(k + 1));
        k += 1;
    }
    k
}

/// The color `parse_hex_color` reads: after leading '#'s, exactly six bytes
/// holding three channels, each failure with its own message.
pub open spec fn spec_parse_hex_color(bs: Seq<u8>) -> Result<Seq<u8>, Seq<char>> {
    let h = trim_hashes(bs);
    if h.len() != 6 {
        Err("color must be a 6-digit hex value like ffffff"@)
    } else {
        match spec_hex_pair(h[0], h[1]) {
            None => Err("invalid red channel in color"@),
            Some(r) => match spec_hex_pair(h[2], h[3]) {
                None => Err("invalid green channel in color"@),
                Some(g) => match spec_hex_pair(h[4], h[5]) {
                    None => Err("invalid blue channel in color"@),
                    Some(b) => Ok(seq![r, g, b]),
                },
            },
        }
    }
}

pub open spec fn color_result_view(r: Result<[u8; 3], String>) -> Result<Seq<u8>, Seq<char>> {
    match r {
        Ok(c) => Ok(c@),
        Err(s) => Err(s@),
    }
}

/// Parse a 6-digit hex color such as "f4a030" or "#f4a030".
pub fn parse_hex_color(hex: &str) -> (r: Result<[u8; 3], String>)
    ensures
        color_result_view(r) == spec_parse_hex_color(hex.spec_bytes()),
{
    let bs = hex.as_bytes();
    let k = count_leading_hashes(bs);
    let ghost h = bs@.skip(k as int);
    if bs.len() - k != 6 {
        return Err(String::from_str("color must be a 6-digit hex value like ffffff"));
    }
    let r = match hex_pair(bs[k], bs[k + 1]) {
        Some(v) => v,
        None => return Err(String::from_str("invalid red channel in color")),
    };
    let g = match hex_pair(bs[k + 2], bs[k + 3]) {
        Some(v) => v,
        None => return Err(String::from_str("invalid green channel in color")),
    };
    let b = match hex_pair(bs[k + 4], bs[k + 5]) {
        Some(v) => v,
        None => return Err(String::from_str("invalid blue channel in color")),
    };
    let c = [r, g, b];
    assert(c@ == seq![r, g, b]);
    Ok(c)
}

/// Wrap the rendered image in an SVG as a base64-embedded PNG, drawn with
/// `image-rendering="auto"`; an error when the PNG encoder refuses the image
/// (an empty one always is).
pub fn png_to_svg(img: &Image) -> (r: Result<String, PngEncodeError>)
    requires
        img.wf(),
    ensures
        png_svg_result(img, true, r),
        img.w() == 0 || img.h() == 0 ==> r is Err,
{
    image_to_svg(img, true)
}

} // verus!
