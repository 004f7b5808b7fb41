use pixie::compose::{
    build_domino, compose_horizontal, draw_domino_hires, draw_in_cells, fill_rounded, max_emoji_extent, place_on_shadow, rgb,
    shadow_silhouette, BadgeStyle, DominoMetrics,
};
use pixie::raster::{Image, Rgba};

const CLEAR: Rgba = Rgba { r: 0, g: 0, b: 0, a: 0 };

fn solid(w: u32, h: u32, c: Rgba) -> Image {
    let mut img = Image::new(w, h);
    for y in 0..h {
        for x in 0..w {
            img.put_pixel(x, y, c);
        }
    }
    img
}

#[test]
fn rgb_is_opaque() {
    assert_eq!(rgb([1, 2, 3]), Rgba { r: 1, g: 2, b: 3, a: 255 });
}

#[test]
fn fill_rounded_cuts_the_corners() {
    let c = Rgba { r: 9, g: 8, b: 7, a: 255 };
    let mut img = Image::new(5, 5);
    fill_rounded(&mut img, 0, 0, 4, 4, 2, c);
    assert_eq!(img.get_pixel(0, 0), CLEAR);
    assert_eq!(img.get_pixel(0, 1), CLEAR);
    assert_eq!(img.get_pixel(1, 1), c);
    assert_eq!(img.get_pixel(0, 2), c);
    assert_eq!(img.get_pixel(2, 2), c);
    assert_eq!(img.get_pixel(4, 4), CLEAR);
    assert_eq!(img.get_pixel(4, 2), c);
}

#[test]
fn fill_rounded_ignores_empty_rectangles_and_clips() {
    let c = Rgba { r: 1, g: 1, b: 1, a: 255 };
    let mut img = Image::new(3, 3);
    fill_rounded(&mut img, 2, 0, 2, 2, 0, c);
    fill_rounded(&mut img, 0, 1, 2, 1, 0, c);
    for y in 0..3 {
        for x in 0..3 {
            assert_eq!(img.get_pixel(x, y), CLEAR);
        }
    }
    // a rectangle running past the image is drawn where it overlaps
    fill_rounded(&mut img, 1, 1, 10, 10, 0, c);
    assert_eq!(img.get_pixel(2, 2), c);
    assert_eq!(img.get_pixel(1, 1), c);
    assert_eq!(img.get_pixel(0, 1), CLEAR);
}

#[test]
fn compose_row_places_emoji_then_text_centered() {
    let red = Rgba { r: 255, g: 0, b: 0, a: 255 };
    let blue = Rgba { r: 0, g: 0, b: 255, a: 255 };
    let green = Rgba { r: 0, g: 255, b: 0, a: 255 };
    let emojis = vec![solid(2, 2, red), solid(1, 4, blue)];
    let text = solid(3, 1, green);
    let out = compose_horizontal(&emojis, Some(&text), 1);
    assert_eq!((out.width(), out.height()), (8, 4));
    // first emoji at (0, 1), second at (3, 0), text at (5, 1)
    assert_eq!(out.get_pixel(0, 1), red);
    assert_eq!(out.get_pixel(1, 2), red);
    assert_eq!(out.get_pixel(0, 0), CLEAR);
    assert_eq!(out.get_pixel(2, 1), CLEAR);
    assert_eq!(out.get_pixel(3, 0), blue);
    assert_eq!(out.get_pixel(3, 3), blue);
    assert_eq!(out.get_pixel(4, 1), CLEAR);
    assert_eq!(out.get_pixel(5, 1), green);
    assert_eq!(out.get_pixel(7, 1), green);
    assert_eq!(out.get_pixel(7, 0), CLEAR);
}

#[test]
fn compose_row_of_nothing_is_one_clear_pixel() {
    let out = compose_horizontal(&vec![], None, 7);
    assert_eq!((out.width(), out.height()), (1, 1));
    assert_eq!(out.get_pixel(0, 0), CLEAR);
    let text = solid(2, 3, Rgba { r: 4, g: 4, b: 4, a: 255 });
    let out = compose_horizontal(&vec![], Some(&text), 7);
    // with no emoji the row is just the text: padding only separates images
    assert_eq!((out.width(), out.height()), (2, 3));
    assert_eq!(out.get_pixel(0, 0), Rgba { r: 4, g: 4, b: 4, a: 255 });
    let out = compose_horizontal(&vec![], Some(&Image::new(10, 4)), 5);
    assert_eq!((out.width(), out.height()), (10, 4));
}

#[test]
fn emoji_extent_is_largest_side() {
    assert_eq!(max_emoji_extent(&vec![]), 1);
    assert_eq!(max_emoji_extent(&vec![Image::new(2, 3), Image::new(5, 1)]), 5);
    assert_eq!(max_emoji_extent(&vec![Image::new(2, 7)]), 7);
}

fn metrics() -> DominoMetrics {
    DominoMetrics { cell_pad: 1, radius: 2, inset: 3, divider: [38, 40, 48], border: [200, 200, 200] }
}

#[test]
fn hires_tile_has_border_fill_and_divider() {
    let m = metrics();
    let fill = [10, 20, 30];
    let hi = draw_domino_hires(8, 2, fill, m);
    assert_eq!((hi.width(), hi.height()), (64, 32));
    assert_eq!(hi.get_pixel(0, 0), CLEAR);
    assert_eq!(hi.get_pixel(1, 16), rgb(m.border));
    assert_eq!(hi.get_pixel(14, 16), rgb(fill));
    assert_eq!(hi.get_pixel(32, 16), rgb(m.divider));
    assert_eq!(hi.get_pixel(32, 1), rgb(m.border));
    assert_eq!(hi.get_pixel(63, 31), CLEAR);
}

#[test]
fn domino_centers_each_emoji_in_its_cell() {
    let red = Rgba { r: 255, g: 0, b: 0, a: 255 };
    let badge = BadgeStyle { fill: [250, 250, 240] };
    let emojis = vec![solid(2, 2, red), solid(2, 2, red)];
    let tile = build_domino(&emojis, &badge, &metrics());
    assert_eq!((tile.width(), tile.height()), (8, 4));
    for (x, y) in [(1, 1), (2, 2), (5, 1), (6, 2)] {
        assert_eq!(tile.get_pixel(x, y), red);
    }
    let one = build_domino(&vec![solid(2, 2, red)], &badge, &metrics());
    assert_eq!((one.width(), one.height()), (4, 4));
    assert_eq!(one.get_pixel(1, 2), red);
}

#[test]
fn shadow_silhouette_sits_below_the_tile_place() {
    let shade = Rgba { r: 12, g: 14, b: 20, a: 115 };
    let sil = shadow_silhouette(4, 2, 1, 1, 0);
    assert_eq!((sil.width(), sil.height()), (6, 4));
    assert_eq!(sil.get_pixel(1, 2), shade);
    assert_eq!(sil.get_pixel(4, 3), shade);
    assert_eq!(sil.get_pixel(1, 1), CLEAR);
    assert_eq!(sil.get_pixel(0, 2), CLEAR);
    assert_eq!(sil.get_pixel(5, 3), CLEAR);
}

#[test]
fn tile_is_laid_over_its_shadow() {
    let red = Rgba { r: 255, g: 0, b: 0, a: 255 };
    let green = Rgba { r: 0, g: 255, b: 0, a: 255 };
    let tile = solid(2, 2, red);
    let out = place_on_shadow(&Image::new(4, 4), &tile, 1);
    assert_eq!((out.width(), out.height()), (4, 4));
    assert_eq!(out.get_pixel(1, 1), red);
    assert_eq!(out.get_pixel(2, 2), red);
    assert_eq!(out.get_pixel(0, 0), CLEAR);
    assert_eq!(out.get_pixel(3, 3), CLEAR);
    let out = place_on_shadow(&solid(4, 4, green), &tile, 1);
    assert_eq!(out.get_pixel(0, 0), green);
    assert_eq!(out.get_pixel(2, 1), red);
}

#[test]
fn emoji_are_drawn_centered_in_their_cells() {
    let red = Rgba { r: 255, g: 0, b: 0, a: 255 };
    let grey = Rgba { r: 9, g: 9, b: 9, a: 255 };
    let base = solid(6, 3, grey);
    let mut half = Image::new(1, 1);
    half.put_pixel(0, 0, Rgba { r: 0, g: 0, b: 0, a: 0 });
    let tile = draw_in_cells(base, &vec![solid(1, 1, red), half]);
    assert_eq!((tile.width(), tile.height()), (6, 3));
    // cell 0 spans x 0..3, its centre pixel is (1, 1); cell 1's is (4, 1)
    assert_eq!(tile.get_pixel(1, 1), red);
    assert_eq!(tile.get_pixel(4, 1), grey);
    assert_eq!(tile.get_pixel(0, 0), grey);
}
