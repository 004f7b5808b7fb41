//! The `domino` command's value parsing and SVG output, which differ from
//! pixie's in their wording and attributes.

use vstd::prelude::*;
use vstd::string::StringSliceAdditionalSpecFns;

use crate::cli::{color_result_view, count_leading_hashes, hex_pair, spec_hex_pair, trim_hashes};
use crate::raster::Image;
pub use crate::svg::base64_encode;
use crate::svg::{image_to_svg, png_svg_result, PngEncodeError};

verus! {

/// The color `parse_hex_color` reads: after leading '#'s, exactly six bytes;
/// any bad channel gives one shared message.
pub open spec fn spec_parse_hex_color(bs: Seq<u8>) -> Result<Seq<u8>, Seq<char>> {
    let h = trim_hashes(bs);
    if h.len() != 6 {
        Err("color must be a 6-digit hex value like ffffff"@)
    } else {
        match (spec_hex_pair(h[0], h[1]), spec_hex_pair(h[2], h[3]), spec_hex_pair(h[4], h[5])) {
            (Some(r), Some(g), Some(b)) => Ok(seq![r, g, b]),
            _ => Err("color has invalid hex digits"@),
        }
    }
}

/// Parse a 6-digit hex color such as "f4a030" or "#f4a030".
pub fn parse_hex_color(hex: &str) -> (r: Result<[u8; 3], String>)
    ensures
        color_result_view(r) == spec_parse_hex_color(hex.spec_bytes()),
{
    let bs = hex.as_bytes();
    let k = count_leading_hashes(bs);
    if bs.len() - k != 6 {
        return Err(String::from_str("color must be a 6-digit hex value like ffffff"));
    }
    match (hex_pair(bs[k], bs[k + 1]), hex_pair(bs[k + 2], bs[k + 3]), hex_pair(bs[k + 4], bs[k + 5])) {
        (Some(r), Some(g), Some(b)) => {
            let c = [r, g, b];
            assert(c@ == seq![r, g, b]);
            Ok(c)
        },
        _ => Err(String::from_str("color has invalid hex digits")),
    }
}

/// Wrap the rendered image in an SVG as a base64-embedded PNG; an error when
/// the PNG encoder refuses the image (an empty one always is).
pub fn png_to_svg(img: &Image) -> (r: Result<String, PngEncodeError>)
    requires
        img.wf(),
    ensures
        png_svg_result(img, false, r),
        img.w() == 0 || img.h() == 0 ==> r is Err,
{
    image_to_svg(img, false)
}

} // verus!
