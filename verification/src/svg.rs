//! Base64 text and the SVG document that wraps an encoded PNG.

use vstd::prelude::*;

use crate::raster::{encode_png, png_encoding, Image};
use crate::strbuf::push_char;

verus! {

/// The standard base64 alphabet (RFC 4648): A-Z, a-z, 0-9, '+', '/'.
pub open spec fn b64_symbol(v: nat) -> char {
    if v < 26 {
        (v + 65) as char
    } else if v < 52 {
        (v + 71) as char
    } else if v < 62 {
        (v - 4) as char
    } else if v == 62 {
        '+'
    } else {
        '/'
    }
}

/// One group of up to three input bytes (`len` of them real, the rest zero)
/// as four output characters, '=' standing for the missing ones.
pub open spec fn b64_group(b0: nat, b1: nat, b2: nat, len: nat) -> Seq<char> {
    let n = b0 * 65536 + b1 * 256 + b2;
    seq![
        b64_symbol(n / 262144),
        b64_symbol((n / 4096) % 64),
        if len > 1 { b64_symbol((n / 64) % 64) } else { '=' },
        if len > 2 { b64_symbol(n % 64) } else { '=' },
    ]
}

/// Standard padded base64 of a byte string.
pub open spec fn spec_base64(data: Seq<u8>) -> Seq<char>
    decreases data.len(),
{
    if data.len() == 0 {
        Seq::empty()
    } else if data.len() == 1 {
        b64_group(data[0] as nat, 0, 0, 1)
    } else if data.len() == 2 {
        b64_group(data[0] as nat, data[1] as nat, 0, 2)
    } else {
        b64_group(data[0] as nat, data[1] as nat, data[2] as nat, 3) + spec_base64(data.skip(3))
    }
}

fn b64_char(v: u32) -> (c: char)
    requires
        v < 64,
    ensures
        c == b64_symbol(v as nat),
{
    if v < 26 {
        ((v as u8) + 65u8) as char
    } else if v < 52 {
        ((v as u8) + 71u8) as char
    } else if v < 62 {
        ((v as u8) - 4u8) as char
    } else if v == 62 {
        '+'
    } else {
        '/'
    }
}

/// Every four characters of output stand for three bytes of input.
pub proof fn lemma_base64_len(data: Seq<u8>)
    ensures
        spec_base64(data).len() == 4 * ((data.len() + 2) / 3),
    decreases data.len(),
{
    if data.len() >= 3 {
        lemma_base64_len(data.skip(3));
    }
}

/// Base64 works in groups of three bytes: when the first part's length is a
/// multiple of three, the encoding of a concatenation is the concatenation
/// of the encodings.
pub proof fn lemma_base64_concat(a: Seq<u8>, b: Seq<u8>)
    requires
        a.len() % 3 == 0,
    ensures
        spec_base64(a + b) == spec_base64(a) + spec_base64(b),
    decreases a.len(),
{
    if a.len() == 0 {
        assert(a + b == b);
        assert(spec_base64(a) == Seq::<char>::empty());
    } else {
        let ab = a + b;
        assert(ab[0] == a[0] && ab[1] == a[1] && ab[2] == a[2]);
        assert(ab.skip(3) == a.skip(3) + b);
        lemma_base64_concat(a.skip(3), b);
        assert(spec_base64(ab) == b64_group(a[0] as nat, a[1] as nat, a[2] as nat, 3) + spec_base64(
            a.skip(3) + b,
        ));
        assert(spec_base64(a) == b64_group(a[0] as nat, a[1] as nat, a[2] as nat, 3) + spec_base64(a.skip(3)));
    }
}

/// The output alphabet is RFC 4648's standard one (its Table 1): values 0 to
/// 25 are 'A' to 'Z', 26 to 51 are 'a' to 'z', 52 to 61 are '0' to '9', 62 is
/// '+' and 63 is '/'. None of them is the padding character '='.
pub proof fn lemma_base64_standard_alphabet(v: nat)
    requires
        v < 64,
    ensures
        v < 26 ==> (b64_symbol(v) as u32) == ('A' as u32) + v,
        26 <= v < 52 ==> (b64_symbol(v) as u32) == ('a' as u32) + (v - 26),
        52 <= v < 62 ==> (b64_symbol(v) as u32) == ('0' as u32) + (v - 52),
        v == 62 ==> b64_symbol(v) == '+',
        v == 63 ==> b64_symbol(v) == '/',
        b64_symbol(v) != '=',
{
}

/// How the bits of three bytes fall into four symbols: the first symbol is
/// the top six bits of the first byte, the second its low two bits above the
/// top four of the second byte, the third the low four bits of the second
/// byte above the top two of the third, the fourth the low six bits of the
/// third; the rest of the input is encoded after them.
pub proof fn lemma_base64_three_bytes(b0: u8, b1: u8, b2: u8, rest: Seq<u8>)
    ensures
        spec_base64(seq![b0, b1, b2] + rest) == seq![
            b64_symbol((b0 / 4) as nat),
            b64_symbol(((b0 % 4) * 16 + b1 / 16) as nat),
            b64_symbol(((b1 % 16) * 4 + b2 / 64) as nat),
            b64_symbol((b2 % 64) as nat),
        ] + spec_base64(rest),
{
    let d = seq![b0, b1, b2] + rest;
    assert(d[0] == b0 && d[1] == b1 && d[2] == b2);
    assert(d.skip(3) == rest);
    lemma_group_bits(b0 as int, b1 as int, b2 as int);
}

/// A last group of one or two bytes is padded with '=': one byte gives its
/// top six bits, then its low two bits followed by four zero bits, then "==";
/// two bytes give three symbols and one '='.
pub proof fn lemma_base64_padding(b0: u8, b1: u8)
    ensures
        spec_base64(seq![b0]) == seq![
            b64_symbol((b0 / 4) as nat),
            b64_symbol(((b0 % 4) * 16) as nat),
            '=',
            '=',
        ],
        spec_base64(seq![b0, b1]) == seq![
            b64_symbol((b0 / 4) as nat),
            b64_symbol(((b0 % 4) * 16 + b1 / 16) as nat),
            b64_symbol(((b1 % 16) * 4) as nat),
            '=',
        ],
{
    lemma_group_bits(b0 as int, 0, 0);
    lemma_group_bits(b0 as int, b1 as int, 0);
    assert(seq![b0][0] == b0);
    assert(seq![b0, b1][0] == b0 && seq![b0, b1][1] == b1);
}

proof fn lemma_group_bits(b0: int, b1: int, b2: int)
    requires
        0 <= b0 < 256,
        0 <= b1 < 256,
        0 <= b2 < 256,
    ensures
        ({
            let n = b0 * 65536 + b1 * 256 + b2;
            &&& n / 262144 == b0 / 4
            &&& (n / 4096) % 64 == (b0 % 4) * 16 + b1 / 16
            &&& (n / 64) % 64 == (b1 % 16) * 4 + b2 / 64
            &&& n % 64 == b2 % 64
        }),
{
    let n = b0 * 65536 + b1 * 256 + b2;
    let q0 = b0 / 4;
    let r0 = b0 % 4;
    let q1 = b1 / 16;
    let r1 = b1 % 16;
    let q2 = b2 / 64;
    let r2 = b2 % 64;
    assert(b0 == 4 * q0 + r0 && 0 <= r0 < 4);
    assert(b1 == 16 * q1 + r1 && 0 <= r1 < 16 && 0 <= q1 < 16);
    assert(b2 == 64 * q2 + r2 && 0 <= r2 < 64 && 0 <= q2 < 4);
    assert(n == 262144 * q0 + 4096 * (r0 * 16 + q1) + 64 * (r1 * 4 + q2) + r2);
    let a = r0 * 16 + q1;
    let c = r1 * 4 + q2;
    assert(0 <= a < 64 && 0 <= c < 64);
    assert(n / 262144 == q0) by (nonlinear_arith)
        requires
            n == 262144 * q0 + 4096 * a + 64 * c + r2,
            0 <= a < 64,
            0 <= c < 64,
            0 <= r2 < 64,
    ;
    assert(n / 4096 == 64 * q0 + a) by (nonlinear_arith)
        requires
            n == 262144 * q0 + 4096 * a + 64 * c + r2,
            0 <= c < 64,
            0 <= r2 < 64,
    ;
    assert((64 * q0 + a) % 64 == a) by (nonlinear_arith)
        requires
            0 <= a < 64,
            q0 >= 0,
    ;
    assert(n / 64 == 64 * (64 * q0 + a) + c) by (nonlinear_arith)
        requires
            n == 262144 * q0 + 4096 * a + 64 * c + r2,
            0 <= r2 < 64,
    ;
    assert((64 * (64 * q0 + a) + c) % 64 == c) by (nonlinear_arith)
        requires
            0 <= c < 64,
            q0 >= 0,
            0 <= a,
    ;
    assert(n % 64 == r2) by (nonlinear_arith)
        requires
            n == 64 * (64 * (64 * q0 + a) + c) + r2,
            0 <= r2 < 64,
    ;
}

/// Minimal standard base64 encoder.
pub fn base64_encode(data: &[u8]) -> (out: String)
    ensures
        out@ == spec_base64(data@),
        out@.len() == 4 * ((data@.len() + 2) / 3),
{
    let mut out = String::new();
    let len = data.len();
    let mut i: usize = 0;
    assert(data@.skip(0) == data@);
    while i < len
        invariant
            len == data@.len(),
            i <= len,
            spec_base64(data@) == out@ + spec_base64(data@.skip(i as int)),
        decreases len - i,
    {
        let rest = len - i;
        let b0 = data[i] as u32;
        let b1 = if rest > 1 { data[i + 1] as u32 } else { 0 };
        let b2 = if rest > 2 { data[i + 2] as u32 } else { 0 };
        let n = (b0 << 16) | (b1 << 8) | b2;
        assert(n == b0 * 65536 + b1 * 256 + b2) by (bit_vector)
            requires
                n == (b0 << 16) | (b1 << 8) | b2,
                b0 < 256,
                b1 < 256,
                b2 < 256,
        ;
        assert((n >> 18) & 63 == n / 262144 && (n >> 12) & 63 == (n / 4096) % 64 && (n >> 6) & 63
            == (n / 64) % 64 && n & 63 == n % 64) by (bit_vector)
            requires
                n < 16777216,
        ;
        let ghost before = out@;
        push_char(&mut out, b64_char((n >> 18) & 63));
        push_char(&mut out, b64_char((n >> 12) & 63));
        push_char(&mut out, if rest > 1 { b64_char((n >> 6) & 63) } else { '=' });
        push_char(&mut out, if rest > 2 { b64_char(n & 63) } else { '=' });
        let step: usize = if rest > 3 { 3 } else { rest };
        proof {
            let tail = data@.skip(i as int);
            let g = b64_group(b0 as nat, b1 as nat, b2 as nat, step as nat);
            assert(out@ == before + g);
            if rest >= 3 {
                assert(tail.skip(3) == data@.skip(i + 3));
                assert(spec_base64(tail) == g + spec_base64(tail.skip(3)));
            } else {
                assert(data@.skip(i + step) =~= Seq::<u8>::empty());
            }
        }
        i = i + step;
    }
    proof {
        assert(data@.skip(len as int) =~= Seq::<u8>::empty());
        lemma_base64_len(data@);
    }
    out
}

/// Decimal digits without leading zeros, as `format!("{}", n)`.
pub open spec fn decimal(n: nat) -> Seq<char>
    decreases n,
{
    if n < 10 {
        seq![(n + 48) as char]
    } else {
        decimal(n / 10).push((n % 10 + 48) as char)
    }
}

pub fn push_decimal(s: &mut String, n: u32)
    ensures
        final(s)@ == old(s)@ + decimal(n as nat),
    decreases n,
{
    if n < 10 {
        push_char(s, ((n as u8) + 48u8) as char);
    } else {
        push_decimal(s, n / 10);
        push_char(s, (((n % 10) as u8) + 48u8) as char);
    }
}

/// The SVG document that shows a `w` x `h` base64 PNG at its natural size;
/// `smooth` adds `image-rendering="auto"`.
pub open spec fn svg_text(w: nat, h: nat, b64: Seq<char>, smooth: bool) -> Seq<char> {
    "<svg xmlns=\"http://www.w3.org/2000/svg\" viewBox=\"0 0 "@ + decimal(w) + " "@ + decimal(h)
        + "\" width=\""@ + decimal(w) + "\" height=\""@ + decimal(h) + "\"><image width=\""@
        + decimal(w) + "\" height=\""@ + decimal(h) + (if smooth {
        "\" image-rendering=\"auto\" href=\"data:image/png;base64,"@
    } else {
        "\" href=\"data:image/png;base64,"@
    }) + b64 + "\"/></svg>"@
}

/// Build the SVG document around base64 PNG text.
pub fn svg_document(w: u32, h: u32, b64: &str, smooth: bool) -> (out: String)
    ensures
        out@ == svg_text(w as nat, h as nat, b64@, smooth),
{
    let mut out = String::from_str("<svg xmlns=\"http://www.w3.org/2000/svg\" viewBox=\"0 0 ");
    push_decimal(&mut out, w);
    out.append(" ");
    push_decimal(&mut out, h);
    out.append("\" width=\"");
    push_decimal(&mut out, w);
    out.append("\" height=\"");
    push_decimal(&mut out, h);
    out.append("\"><image width=\"");
    push_decimal(&mut out, w);
    out.append("\" height=\"");
    push_decimal(&mut out, h);
    if smooth {
        out.append("\" image-rendering=\"auto\" href=\"data:image/png;base64,");
    } else {
        out.append("\" href=\"data:image/png;base64,");
    }
    out.append(b64);
    out.append("\"/></svg>");
    out
}

/// The SVG document for a `w` x `h` image whose PNG file is `png`.
pub fn svg_from_png(w: u32, h: u32, png: &[u8], smooth: bool) -> (out: String)
    ensures
        out@ == svg_text(w as nat, h as nat, spec_base64(png@), smooth),
{
    let b64 = base64_encode(png);
    svg_document(w, h, b64.as_str(), smooth)
}

/// The PNG encoder failed.
#[derive(Clone, Copy, Debug, PartialEq, Eq)]
pub struct PngEncodeError;

/// `r` is what wrapping `img` in an SVG gives: the SVG document around the
/// base64 of its PNG file when the encoder writes one, and an error when the
/// encoder refuses the image.
pub open spec fn png_svg_result(img: &Image, smooth: bool, r: Result<String, PngEncodeError>) -> bool {
    match png_encoding(img.w(), img.h(), img.bytes()) {
        Some(png) => r matches Ok(s) && s@ == svg_text(img.w(), img.h(), spec_base64(png), smooth),
        None => r is Err,
    }
}

/// Wrap an image in an SVG as a base64-embedded PNG: the document around the
/// image's PNG file where the encoder writes one, an error where it refuses
/// the image (as it always does an empty one).
pub fn image_to_svg(img: &Image, smooth: bool) -> (r: Result<String, PngEncodeError>)
    requires
        img.wf(),
    ensures
        png_svg_result(img, smooth, r),
        img.w() == 0 || img.h() == 0 ==> r is Err,
{
    match encode_png(img) {
        Ok(png) => Ok(svg_from_png(img.width(), img.height(), png.as_slice(), smooth)),
        Err(_) => Err(PngEncodeError),
    }
}

} // verus!
