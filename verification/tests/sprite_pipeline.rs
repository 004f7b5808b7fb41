use pixie::raster::{Image, Rgba};
use pixie::sprite::{add_outline, center_in_frame, content_bounds, finish_sprite, snap_alpha, EmojiStyle};

const CLEAR: Rgba = Rgba { r: 0, g: 0, b: 0, a: 0 };
const INK: Rgba = Rgba { r: 26, g: 24, b: 30, a: 255 };

fn px(r: u8, g: u8, b: u8, a: u8) -> Rgba {
    Rgba { r, g, b, a }
}

#[test]
fn snap_alpha_threshold_is_110() {
    let mut img = Image::new(3, 1);
    img.put_pixel(0, 0, px(10, 20, 30, 109));
    img.put_pixel(1, 0, px(10, 20, 30, 110));
    img.put_pixel(2, 0, px(1, 2, 3, 254));
    snap_alpha(&mut img);
    assert_eq!(img.get_pixel(0, 0), CLEAR);
    assert_eq!(img.get_pixel(1, 0), px(10, 20, 30, 255));
    assert_eq!(img.get_pixel(2, 0), px(1, 2, 3, 255));
}

#[test]
fn content_bounds_boxes_the_opaque_pixels() {
    let mut img = Image::new(4, 4);
    assert_eq!(content_bounds(&img), None);
    img.put_pixel(1, 2, px(1, 1, 1, 1));
    img.put_pixel(3, 0, px(1, 1, 1, 255));
    assert_eq!(content_bounds(&img), Some((1, 0, 3, 2)));
}

#[test]
fn center_in_frame_moves_off_center_content() {
    let red = px(255, 0, 0, 255);
    let mut img = Image::new(5, 5);
    img.put_pixel(0, 0, red);
    img.put_pixel(1, 0, px(0, 0, 0, 0));
    let out = center_in_frame(img);
    assert_eq!((out.width(), out.height()), (5, 5));
    assert_eq!(out.get_pixel(2, 2), red);
    assert_eq!(out.get_pixel(0, 0), CLEAR);
}

#[test]
fn center_in_frame_keeps_centered_or_empty_frames() {
    let mut img = Image::new(5, 3);
    img.put_pixel(2, 1, px(1, 2, 3, 255));
    img.put_pixel(0, 0, px(7, 7, 7, 0));
    let out = center_in_frame(img.duplicate());
    assert_eq!(out.as_raw(), img.as_raw());

    let mut empty = Image::new(2, 2);
    empty.put_pixel(0, 0, px(5, 5, 5, 0));
    let out = center_in_frame(empty.duplicate());
    assert_eq!(out.as_raw(), empty.as_raw());
}

#[test]
fn center_in_frame_rounds_toward_top_left() {
    let blue = px(0, 0, 255, 255);
    let mut img = Image::new(4, 4);
    img.put_pixel(3, 3, blue);
    let out = center_in_frame(img);
    // a 1x1 box in a 4x4 frame lands at ((4 - 1) / 2, (4 - 1) / 2)
    assert_eq!(out.get_pixel(1, 1), blue);
    assert_eq!(out.get_pixel(3, 3), CLEAR);
}

#[test]
fn add_outline_draws_a_one_pixel_ring() {
    let red = px(255, 0, 0, 255);
    let mut img = Image::new(1, 1);
    img.put_pixel(0, 0, red);
    let out = add_outline(&img);
    assert_eq!((out.width(), out.height()), (3, 3));
    assert_eq!(out.get_pixel(1, 1), red);
    for (x, y) in [(1, 0), (0, 1), (2, 1), (1, 2)] {
        assert_eq!(out.get_pixel(x, y), INK);
    }
    for (x, y) in [(0, 0), (2, 0), (0, 2), (2, 2)] {
        assert_eq!(out.get_pixel(x, y), CLEAR);
    }
}

#[test]
fn add_outline_leaves_holes_between_pixels_inked() {
    let c = px(9, 9, 9, 255);
    let mut img = Image::new(3, 1);
    img.put_pixel(0, 0, c);
    img.put_pixel(2, 0, c);
    let out = add_outline(&img);
    assert_eq!((out.width(), out.height()), (5, 3));
    assert_eq!(out.get_pixel(2, 1), INK);
    assert_eq!(out.get_pixel(1, 1), c);
    assert_eq!(out.get_pixel(3, 1), c);
    assert_eq!(out.get_pixel(0, 0), CLEAR);
}

#[test]
fn finish_sprite_snaps_centers_and_zooms() {
    let style = EmojiStyle { grid: 3, zoom: 2, colors: 0, outline: false };
    let mut img = Image::new(3, 3);
    img.put_pixel(0, 0, px(10, 200, 30, 200));
    img.put_pixel(2, 2, px(50, 50, 50, 100));
    let out = finish_sprite(img, style);
    assert_eq!((out.width(), out.height()), (6, 6));
    for (x, y) in [(2, 2), (3, 2), (2, 3), (3, 3)] {
        assert_eq!(out.get_pixel(x, y), px(10, 200, 30, 255));
    }
    assert_eq!(out.get_pixel(0, 0), CLEAR);
    assert_eq!(out.get_pixel(5, 5), CLEAR);
}

#[test]
fn finish_sprite_outline_and_palette() {
    let style = EmojiStyle { grid: 3, zoom: 1, colors: 1, outline: true };
    let mut img = Image::new(3, 3);
    img.put_pixel(1, 1, px(100, 0, 0, 255));
    img.put_pixel(1, 0, px(0, 0, 100, 255));
    let out = finish_sprite(img, style);
    assert_eq!((out.width(), out.height()), (5, 5));
    // one palette color for both pixels; the 1x2 column already sits where
    // centering puts it, and the outline shifts it by one pixel
    assert_eq!(out.get_pixel(2, 1), px(50, 0, 50, 255));
    assert_eq!(out.get_pixel(2, 2), px(50, 0, 50, 255));
    assert_eq!(out.get_pixel(1, 1), INK);
    assert_eq!(out.get_pixel(2, 3), INK);
    // hard alpha everywhere
    for y in 0..5 {
        for x in 0..5 {
            let a = out.get_pixel(x, y).a;
            assert!(a == 0 || a == 255);
        }
    }
}

#[test]
fn recentering_twice_changes_nothing_more() {
    let mut img = Image::new(6, 5);
    img.put_pixel(0, 0, px(1, 2, 3, 255));
    img.put_pixel(1, 1, px(4, 5, 6, 255));
    let once = center_in_frame(img);
    let twice = center_in_frame(once.duplicate());
    assert_eq!(twice.as_raw(), once.as_raw());
    // the 2x2 box sits at ((6 - 2) / 2, (5 - 2) / 2)
    assert_eq!(once.get_pixel(2, 1), px(1, 2, 3, 255));
    assert_eq!(once.get_pixel(3, 2), px(4, 5, 6, 255));
}

#[test]
fn fit_into_grid_centers_the_resized_raster() {
    let red = px(255, 0, 0, 255);
    let mut img = Image::new(2, 2);
    for y in 0..2 {
        for x in 0..2 {
            img.put_pixel(x, y, red);
        }
    }
    // same size: the raster is copied, then centered in a 5x5 canvas at (1, 1)
    let out = pixie::sprite::fit_into_grid(&img, 5, 2, 2);
    assert_eq!((out.width(), out.height()), (5, 5));
    assert_eq!(out.get_pixel(1, 1), red);
    assert_eq!(out.get_pixel(2, 2), red);
    assert_eq!(out.get_pixel(0, 0), CLEAR);
    assert_eq!(out.get_pixel(3, 3), CLEAR);
}

#[test]
fn sprite_from_render_downscales_to_the_grid() {
    let style = EmojiStyle { grid: 2, zoom: 3, colors: 0, outline: false };
    let blue = px(0, 0, 255, 255);
    let mut hi = Image::new(8, 8);
    for y in 0..8 {
        for x in 0..8 {
            hi.put_pixel(x, y, blue);
        }
    }
    let out = pixie::sprite::sprite_from_render(&hi, style);
    assert_eq!((out.width(), out.height()), (6, 6));
    assert_eq!(out.get_pixel(0, 0), blue);
    assert_eq!(out.get_pixel(5, 5), blue);
}

#[test]
fn zoom_only_copies_pixels() {
    let plain = EmojiStyle { grid: 3, zoom: 1, colors: 0, outline: true };
    let zoomed = EmojiStyle { grid: 3, zoom: 3, colors: 0, outline: true };
    let mut img = Image::new(3, 3);
    img.put_pixel(1, 1, px(200, 10, 10, 255));
    img.put_pixel(2, 1, px(10, 200, 10, 180));
    let small = finish_sprite(img.duplicate(), plain);
    let big = finish_sprite(img, zoomed);
    assert_eq!((big.width(), big.height()), (small.width() * 3, small.height() * 3));
    for y in 0..big.height() {
        for x in 0..big.width() {
            let p = big.get_pixel(x, y);
            assert!(p.a == 0 || p.a == 255);
            assert_eq!(p, small.get_pixel(x / 3, y / 3));
        }
    }
}
