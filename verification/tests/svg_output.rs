use pixie::cli::{base64_encode, png_to_svg};
use pixie::domino;
use pixie::raster::Image;
use pixie::svg::svg_document;

#[test]
fn base64_known_vectors() {
    assert_eq!(base64_encode(b""), "");
    assert_eq!(base64_encode(b"f"), "Zg==");
    assert_eq!(base64_encode(b"fo"), "Zm8=");
    assert_eq!(base64_encode(b"foo"), "Zm9v");
    assert_eq!(base64_encode(b"foob"), "Zm9vYg==");
    assert_eq!(base64_encode(b"fooba"), "Zm9vYmE=");
    assert_eq!(base64_encode(b"foobar"), "Zm9vYmFy");
    assert_eq!(base64_encode(&[0xff, 0xfe, 0xfd]), "//79");
    assert_eq!(domino::base64_encode(&[0, 0, 0]), "AAAA");
}

#[test]
fn base64_length_law() {
    for n in 0..20usize {
        let data: Vec<u8> = (0..n as u8).collect();
        assert_eq!(base64_encode(&data).len(), 4 * ((n + 2) / 3));
    }
}

#[test]
fn svg_document_text() {
    assert_eq!(
        svg_document(3, 12, "QUJD", true),
        r#"<svg xmlns="http://www.w3.org/2000/svg" viewBox="0 0 3 12" width="3" height="12"><image width="3" height="12" image-rendering="auto" href="data:image/png;base64,QUJD"/></svg>"#
    );
    assert_eq!(
        svg_document(0, 100, "", false),
        r#"<svg xmlns="http://www.w3.org/2000/svg" viewBox="0 0 0 100" width="0" height="100"><image width="0" height="100" href="data:image/png;base64,"/></svg>"#
    );
}

#[test]
fn png_to_svg_embeds_a_png() {
    let img = Image::new(2, 1);
    let svg = png_to_svg(&img).unwrap();
    assert!(svg.starts_with(r#"<svg xmlns="http://www.w3.org/2000/svg" viewBox="0 0 2 1" width="2" height="1">"#));
    assert!(svg.contains("image-rendering=\"auto\" href=\"data:image/png;base64,iVBORw0KGgo"));
    let svg2 = domino::png_to_svg(&img).unwrap();
    assert!(svg2.contains("height=\"1\" href=\"data:image/png;base64,iVBORw0KGgo"));
    assert!(!svg2.contains("image-rendering"));
}

#[test]
fn svg_from_png_wraps_the_bytes_it_is_given() {
    assert_eq!(
        pixie::svg::svg_from_png(4, 2, b"foo", false),
        r#"<svg xmlns="http://www.w3.org/2000/svg" viewBox="0 0 4 2" width="4" height="2"><image width="4" height="2" href="data:image/png;base64,Zm9v"/></svg>"#
    );
    assert!(pixie::svg::svg_from_png(1, 1, b"", true).ends_with("base64,\"/></svg>"));
}

#[test]
fn png_encoder_failure_is_reported() {
    // PNG has no zero-width images, so the encoder refuses this one
    let empty = Image::new(0, 3);
    assert_eq!(png_to_svg(&empty), Err(pixie::svg::PngEncodeError));
    assert_eq!(domino::png_to_svg(&empty), Err(pixie::svg::PngEncodeError));
}

#[test]
fn base64_of_a_concatenation_splits_at_whole_groups() {
    let a: Vec<u8> = b"foobar".to_vec();
    for b in [&b""[..], b"x", b"xy", b"xyz!"] {
        let joined = [a.as_slice(), b].concat();
        assert_eq!(base64_encode(&joined), base64_encode(&a) + &base64_encode(b));
    }
}
