use pixie::compose::{
    compose_horizontal, domino_fits_check, row_fits_check, silhouette_fits_check, DominoMetrics,
};
use pixie::emoji::split_emojis;
use pixie::raster::{Image, Rgba};
use pixie::sprite::{add_outline, finish_fits_check, fit_fits_check, render_fits_check, EmojiStyle};
use pixie::text::{pixel_text_fits, render_text_pixel, Glyph};

fn bar() -> Glyph {
    Glyph { width: 1, height: 2, xmin: 0, ymin: 0, advance: 2, coverage: vec![255, 255] }
}

#[test]
fn negative_tracking_renders_as_zero() {
    let a = render_text_pixel(&vec![bar(), bar()], [1, 2, 3], -7, true, 2);
    let b = render_text_pixel(&vec![bar(), bar()], [1, 2, 3], 0, true, 2);
    assert_eq!((a.width(), a.height()), (b.width(), b.height()));
    assert_eq!(a.as_raw(), b.as_raw());
}

#[test]
fn a_space_separates_two_splits() {
    for (a, b) in [("🦆🇫🇷", "👍🏽x"), ("", "🎱"), ("a\u{FE0F}", ""), ("🇫", "🇷")] {
        let joined = format!("{} {}", a, b);
        assert_eq!(split_emojis(&joined), [split_emojis(a), split_emojis(b)].concat());
    }
    // a trailing joiner takes the space into its sequence
    assert_eq!(split_emojis("a\u{200D} b"), vec!["a\u{200D} ", "b"]);
}

#[test]
fn padding_does_not_matter_for_a_single_image() {
    let mut mark = Image::new(3, 2);
    mark.put_pixel(1, 1, Rgba { r: 12, g: 14, b: 20, a: 115 });
    let one = compose_horizontal(&vec![mark.duplicate()], None, 1);
    let other = compose_horizontal(&vec![mark.duplicate()], None, 40);
    assert_eq!((one.width(), one.height()), (3, 2));
    assert_eq!(one.as_raw(), other.as_raw());
}

#[test]
fn partly_transparent_pixels_are_kept_in_a_row() {
    let mut text = Image::new(1, 1);
    text.put_pixel(0, 0, Rgba { r: 200, g: 100, b: 50, a: 128 });
    let out = compose_horizontal(&vec![], Some(&text), 3);
    assert_eq!((out.width(), out.height()), (1, 1));
    assert!(out.get_pixel(0, 0).a > 0);
}

#[test]
fn outline_leaves_a_partly_transparent_pixel_uninked() {
    let mut img = Image::new(1, 1);
    img.put_pixel(0, 0, Rgba { r: 10, g: 10, b: 10, a: 128 });
    let out = add_outline(&img);
    assert!(out.get_pixel(1, 1).a > 0);
    assert_eq!(out.get_pixel(1, 0), Rgba { r: 26, g: 24, b: 30, a: 255 });
}

#[test]
fn fit_checks_answer_for_the_pipeline() {
    let style = EmojiStyle { grid: 28, zoom: 5, colors: 16, outline: true };
    assert!(finish_fits_check(28, 28, style));
    assert!(!finish_fits_check(u32::MAX, 1, style));
    assert!(render_fits_check(336, style));
    assert!(fit_fits_check(100, 28, 28, 20));
    assert!(!fit_fits_check(100, 28, 29, 20));
    assert!(silhouette_fits_check(10, 5, 1, 1));
    assert!(!silhouette_fits_check(0, 0, 0, 0));
    assert!(!silhouette_fits_check(u32::MAX, 1, 1, 0));
    let m = DominoMetrics { cell_pad: 0, radius: 1, inset: 1, divider: [0, 0, 0], border: [0, 0, 0] };
    assert!(!domino_fits_check(&vec![Image::new(1, 1)], &m));
    assert!(domino_fits_check(&vec![Image::new(4, 4), Image::new(2, 3)], &m));
    assert!(row_fits_check(&vec![Image::new(2, 2)], None, 5));
    assert!(!row_fits_check(&vec![Image::new(2, 2), Image::new(2, 2)], None, u32::MAX));
}

#[test]
fn pixel_text_check_follows_the_i32_layout() {
    assert!(pixel_text_fits(&vec![bar(), bar()], 1, 3));
    assert!(pixel_text_fits(&vec![], -4, 1));
    let wide = Glyph { width: 0, height: 0, xmin: 0, ymin: 0, advance: i32::MAX, coverage: vec![] };
    assert!(!pixel_text_fits(&vec![wide], 1, 1));
    let low = Glyph { width: 0, height: 0, xmin: 0, ymin: i32::MIN, advance: 1, coverage: vec![] };
    assert!(!pixel_text_fits(&vec![low], 0, 1));
    let short = Glyph { width: 2, height: 2, xmin: 0, ymin: 0, advance: 2, coverage: vec![255] };
    assert!(!pixel_text_fits(&vec![short], 0, 1));
    assert!(!pixel_text_fits(&vec![bar()], 0, u32::MAX));
}
