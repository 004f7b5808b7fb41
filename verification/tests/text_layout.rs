use pixie::raster::{Image, Rgba};
use pixie::text::{layout_glyphs, native_size_from_heights, outline_native, render_text_pixel, Glyph};

const CLEAR: Rgba = Rgba { r: 0, g: 0, b: 0, a: 0 };
const INK: Rgba = Rgba { r: 26, g: 24, b: 30, a: 255 };
const RED: Rgba = Rgba { r: 255, g: 0, b: 0, a: 255 };

/// A one-pixel-wide, two-pixel-tall bar in a two-pixel cell.
fn bar() -> Glyph {
    Glyph { width: 1, height: 2, xmin: 0, ymin: 0, advance: 2, coverage: vec![255, 255] }
}

fn lit(img: &Image) -> Vec<(u32, u32)> {
    let mut v = Vec::new();
    for y in 0..img.height() {
        for x in 0..img.width() {
            if img.get_pixel(x, y).a != 0 {
                v.push((x, y));
            }
        }
    }
    v
}

#[test]
fn lays_out_one_glyph_with_a_margin() {
    let img = layout_glyphs(&vec![bar()], [255, 0, 0], 0);
    assert_eq!((img.width(), img.height()), (4, 4));
    assert_eq!(img.get_pixel(1, 1), RED);
    assert_eq!(img.get_pixel(1, 2), RED);
    assert_eq!(lit(&img), vec![(1, 1), (1, 2)]);
}

#[test]
fn tracking_spaces_glyphs_and_negative_tracking_is_none() {
    let img = layout_glyphs(&vec![bar(), bar()], [255, 0, 0], 1);
    assert_eq!((img.width(), img.height()), (7, 4));
    assert_eq!(lit(&img), vec![(1, 1), (4, 1), (1, 2), (4, 2)]);
    let tight = layout_glyphs(&vec![bar(), bar()], [255, 0, 0], -5);
    assert_eq!((tight.width(), tight.height()), (6, 4));
    assert_eq!(lit(&tight), vec![(1, 1), (3, 1), (1, 2), (3, 2)]);
}

#[test]
fn coverage_at_or_below_half_is_not_inked_and_descenders_share_a_baseline() {
    let faint = Glyph { width: 1, height: 1, xmin: 0, ymin: 0, advance: 1, coverage: vec![128] };
    let img = layout_glyphs(&vec![faint], [1, 2, 3], 0);
    assert_eq!((img.width(), img.height()), (3, 3));
    assert!(lit(&img).is_empty());
    // a descender one pixel below the baseline next to a bar
    let desc = Glyph { width: 1, height: 2, xmin: 0, ymin: -1, advance: 1, coverage: vec![200, 200] };
    let img = layout_glyphs(&vec![bar(), desc], [255, 0, 0], 0);
    assert_eq!((img.width(), img.height()), (5, 5));
    assert_eq!(lit(&img), vec![(1, 1), (1, 2), (3, 2), (3, 3)]);
}

#[test]
fn empty_text_is_a_blank_three_by_three() {
    let img = layout_glyphs(&vec![], [255, 255, 255], 4);
    assert_eq!((img.width(), img.height()), (3, 3));
    assert!(lit(&img).is_empty());
}

#[test]
fn outline_native_inks_four_neighbours_of_fill() {
    let img = layout_glyphs(&vec![bar()], [255, 0, 0], 0);
    let out = outline_native(&img, RED, INK);
    assert_eq!((out.width(), out.height()), (4, 4));
    for (x, y) in [(1, 0), (0, 1), (2, 1), (0, 2), (2, 2), (1, 3)] {
        assert_eq!(out.get_pixel(x, y), INK);
    }
    assert_eq!(out.get_pixel(1, 1), RED);
    assert_eq!(out.get_pixel(0, 0), CLEAR);
    assert_eq!(out.get_pixel(3, 3), CLEAR);
}

#[test]
fn outline_only_follows_the_fill_color() {
    let mut img = Image::new(3, 1);
    img.put_pixel(1, 0, Rgba { r: 1, g: 1, b: 1, a: 255 });
    let out = outline_native(&img, RED, INK);
    assert_eq!(out.get_pixel(0, 0), CLEAR);
    assert_eq!(out.get_pixel(2, 0), CLEAR);
}

#[test]
fn pixel_text_is_outlined_then_scaled() {
    let out = render_text_pixel(&vec![bar()], [255, 0, 0], 0, true, 2);
    assert_eq!((out.width(), out.height()), (8, 8));
    assert_eq!(out.get_pixel(2, 2), RED);
    assert_eq!(out.get_pixel(3, 5), RED);
    assert_eq!(out.get_pixel(2, 0), INK);
    assert_eq!(out.get_pixel(3, 1), INK);
    assert_eq!(out.get_pixel(0, 0), CLEAR);
    let plain = render_text_pixel(&vec![bar()], [255, 0, 0], 0, false, 1);
    assert_eq!((plain.width(), plain.height()), (4, 4));
    assert_eq!(lit(&plain), vec![(1, 1), (1, 2)]);
}

#[test]
fn native_size_is_the_size_before_height_stops_growing() {
    // heights measured at sizes 4, 5, 6, ...
    assert_eq!(native_size_from_heights(&vec![2, 3, 4, 5, 5]), Some(7));
    assert_eq!(native_size_from_heights(&vec![3, 3, 3, 3]), Some(6));
    assert_eq!(native_size_from_heights(&vec![0, 0, 0, 0, 0]), None);
    assert_eq!(native_size_from_heights(&vec![1, 2, 3, 4]), None);
    assert_eq!(native_size_from_heights(&vec![]), None);
    assert_eq!(native_size_from_heights(&vec![8, 8, 8]), None);
}
