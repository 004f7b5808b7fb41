//! Laying rasterized glyphs out on a pixel font's native grid, with an
//! optional one-pixel outline.

use vstd::prelude::*;

use crate::raster::{clear, copies_pixels, lemma_bytes_eq_from_pixels, pixel_of, resize, resize_result, Image, ResizeFilter, Rgba};
use crate::sprite::ink;

verus! {

/// One rasterized glyph: its coverage bitmap (row-major, `width` x `height`),
/// its offsets from the pen position and baseline, and its advance rounded up
/// to whole pixels.
#[derive(Debug)]
pub struct Glyph {
    pub width: usize,
    pub height: usize,
    pub xmin: i32,
    pub ymin: i32,
    pub advance: i32,
    pub coverage: Vec<u8>,
}

/// `v` is a value of `i32`, the type the layout computes in.
pub open spec fn fits_i32(v: int) -> bool {
    i32::MIN <= v <= i32::MAX
}

/// A glyph whose bitmap holds its `width` x `height` coverage values, and
/// whose own metrics give the layout `i32` values: its size, its extent above
/// and below the baseline, its right edge and the slack in its cell.
pub open spec fn glyph_ok(g: Glyph) -> bool {
    &&& g.width <= i32::MAX
    &&& g.height <= i32::MAX
    &&& g.coverage@.len() >= g.width * g.height
    &&& fits_i32(g.height + g.ymin)
    &&& fits_i32(-g.ymin)
    &&& fits_i32(g.xmin + g.width)
    &&& fits_i32(g.advance - (g.xmin + g.width))
}

/// Letter spacing actually used: negative tracking counts as none.
pub open spec fn spec_tracking(tracking: i32) -> int {
    if tracking < 0 {
        0
    } else {
        tracking as int
    }
}

/// Pen position (left edge of the cell) of glyph `i`, after a one-pixel margin.
pub open spec fn pen_x(gs: Seq<Glyph>, t: int, i: int) -> int
    decreases i,
{
    if i <= 0 {
        1
    } else {
        pen_x(gs, t, i - 1) + gs[i - 1].advance + t
    }
}

/// Tallest extent above the baseline (at least 0).
pub open spec fn max_ascent(gs: Seq<Glyph>) -> int
    decreases gs.len(),
{
    if gs.len() == 0 {
        0
    } else {
        let m = max_ascent(gs.drop_last());
        let a = gs.last().height + gs.last().ymin;
        if a > m {
            a
        } else {
            m
        }
    }
}

/// Deepest extent below the baseline (at least 0).
pub open spec fn max_descent(gs: Seq<Glyph>) -> int
    decreases gs.len(),
{
    if gs.len() == 0 {
        0
    } else {
        let m = max_descent(gs.drop_last());
        let d = -gs.last().ymin;
        if d > m {
            d
        } else {
            m
        }
    }
}

/// Integer halving rounded toward zero, as Rust's `/ 2` on signed values.
pub open spec fn half_toward_zero(a: int) -> int {
    if a >= 0 {
        a / 2
    } else {
        -((-a) / 2)
    }
}

/// Left edge of glyph `i`'s bitmap: centered in its cell.
pub open spec fn glyph_x(gs: Seq<Glyph>, t: int, i: int) -> int {
    let g = gs[i];
    pen_x(gs, t, i) + g.xmin + half_toward_zero(g.advance - (g.xmin + g.width))
}

/// Top edge of glyph `i`'s bitmap, from the shared baseline.
pub open spec fn glyph_y(gs: Seq<Glyph>, i: int) -> int {
    let g = gs[i];
    max_ascent(gs) + 1 - g.height - g.ymin
}

/// Glyph `i` inks canvas pixel (x, y): its bitmap covers it with coverage
/// above half.
pub open spec fn glyph_inks(gs: Seq<Glyph>, t: int, i: int, x: int, y: int) -> bool {
    let g = gs[i];
    let u = x - glyph_x(gs, t, i);
    let v = y - glyph_y(gs, i);
    0 <= u < g.width && 0 <= v < g.height && g.coverage@[v * g.width + u] > 128
}

/// Some glyph among the first `i` inks (x, y).
pub open spec fn inked_upto(gs: Seq<Glyph>, t: int, i: int, x: int, y: int) -> bool
    decreases i,
{
    if i <= 0 {
        false
    } else {
        inked_upto(gs, t, i - 1, x, y) || glyph_inks(gs, t, i - 1, x, y)
    }
}

/// `g`'s bitmap, placed with its top-left at (gx, gy), inks (x, y).
pub open spec fn bitmap_inks(g: Glyph, gx: int, gy: int, x: int, y: int) -> bool {
    let u = x - gx;
    let v = y - gy;
    0 <= u < g.width && 0 <= v < g.height && g.coverage@[v * g.width + u] > 128
}

proof fn lemma_cov_index(width: int, height: int, row: int, col: int)
    requires
        0 <= row < height,
        0 <= col < width,
    ensures
        0 <= row * width + col < width * height,
{
    assert(0 <= row * width + col < width * height) by (nonlinear_arith)
        requires
            0 <= row < height,
            0 <= col < width,
    ;
}

/// Paint the pixels a glyph's bitmap covers (coverage above half) in `color`,
/// clipped to the canvas.
fn draw_glyph(img: &mut Image, g: &Glyph, gx: i64, gy: i64, color: Rgba)
    requires
        old(img).wf(),
        glyph_ok(*g),
        -0x1_0000_0000 <= gx <= 0x1_0000_0000,
        -0x1_0000_0000 <= gy <= 0x1_0000_0000,
    ensures
        final(img).wf(),
        final(img).w() == old(img).w(),
        final(img).h() == old(img).h(),
        forall|x: int, y: int|
            #![trigger final(img).pixel(x, y)]
            old(img).in_bounds(x, y) ==> final(img).pixel(x, y) == if bitmap_inks(*g, gx as int, gy as int, x, y) {
                color
            } else {
                old(img).pixel(x, y)
            },
{
    let ghost start = *img;
    let w = img.width() as i64;
    let h = img.height() as i64;
    let mut row: usize = 0;
    while row < g.height
        invariant
            glyph_ok(*g),
            start.wf(),
            img.wf(),
            img.w() == start.w(),
            img.h() == start.h(),
            w == start.w(),
            h == start.h(),
            -0x1_0000_0000 <= gx <= 0x1_0000_0000,
            -0x1_0000_0000 <= gy <= 0x1_0000_0000,
            row <= g.height,
            forall|x: int, y: int|
                #![trigger img.pixel(x, y)]
                start.in_bounds(x, y) ==> img.pixel(x, y) == if bitmap_inks(*g, gx as int, gy as int, x, y) && y - gy < row {
                    color
                } else {
                    start.pixel(x, y)
                },
        decreases g.height - row,
    {
        let mut col: usize = 0;
        while col < g.width
            invariant
                glyph_ok(*g),
                start.wf(),
                img.wf(),
                img.w() == start.w(),
                img.h() == start.h(),
                w == start.w(),
                h == start.h(),
                -0x1_0000_0000 <= gx <= 0x1_0000_0000,
                -0x1_0000_0000 <= gy <= 0x1_0000_0000,
                row < g.height,
                col <= g.width,
                forall|x: int, y: int|
                    #![trigger img.pixel(x, y)]
                    start.in_bounds(x, y) ==> img.pixel(x, y) == if bitmap_inks(*g, gx as int, gy as int, x, y) && (y - gy < row || (y - gy == row && x - gx < col)) {
                        color
                    } else {
                        start.pixel(x, y)
                    },
            decreases g.width - col,
        {
            proof {
                lemma_cov_index(g.width as int, g.height as int, row as int, col as int);
            }
            let cov_len = g.coverage.len();
            assert(row * g.width + col < cov_len);
            if g.coverage[row * g.width + col] > 128 {
                let fx = gx + col as i64;
                let fy = gy + row as i64;
                if fx >= 0 && fy >= 0 && fx < w && fy < h {
                    img.put_pixel(fx as u32, fy as u32, color);
                }
            }
            col += 1;
        }
        row += 1;
    }
}

/// Width of the glyph run: every advance plus spacing between glyphs.
pub open spec fn run_width(gs: Seq<Glyph>, t: int) -> int {
    pen_x(gs, t, gs.len() as int) - 1 - t
}

pub open spec fn native_w(gs: Seq<Glyph>, t: int) -> int {
    if run_width(gs, t) > 1 {
        run_width(gs, t)
    } else {
        1
    }
}

pub open spec fn native_h(gs: Seq<Glyph>) -> int {
    if max_ascent(gs) + max_descent(gs) > 1 {
        max_ascent(gs) + max_descent(gs)
    } else {
        1
    }
}

/// The coverage value at (row, col) of a glyph's bitmap.
pub open spec fn cov_at(g: Glyph, row: int, col: int) -> u8 {
    g.coverage@[row * g.width + col]
}

/// Glyph `i`'s placement fits `i32`: its pen position plus offset, its
/// left and top edges, and the position of each pixel it inks.
pub open spec fn glyph_place_fits(gs: Seq<Glyph>, t: int, i: int) -> bool {
    &&& fits_i32(pen_x(gs, t, i) + gs[i].xmin)
    &&& fits_i32(glyph_x(gs, t, i))
    &&& fits_i32(max_ascent(gs) + 1 - gs[i].height)
    &&& fits_i32(glyph_y(gs, i))
    &&& forall|row: int, col: int|
        0 <= row < gs[i].height && 0 <= col < gs[i].width && #[trigger] cov_at(gs[i], row, col) > 128
            ==> fits_i32(glyph_x(gs, t, i) + col) && fits_i32(glyph_y(gs, i) + row)
}

/// Every value the layout computes in `i32` fits, with spacing `t`: the
/// running pen positions (from 0 while measuring, from the one-pixel margin
/// while drawing), each advance plus spacing, the run width, the extents,
/// each glyph's placement and each inked pixel's position.
pub open spec fn layout_fits_at(gs: Seq<Glyph>, t: int) -> bool {
    &&& forall|i: int| 0 <= i < gs.len() ==> glyph_ok(#[trigger] gs[i])
    &&& forall|i: int| 0 <= i < gs.len() ==> fits_i32(#[trigger] gs[i].advance + t)
    &&& forall|i: int|
        0 <= i <= gs.len() ==> fits_i32(#[trigger] pen_x(gs, t, i) - 1) && fits_i32(pen_x(gs, t, i))
    &&& fits_i32(run_width(gs, t))
    &&& fits_i32(max_ascent(gs) + max_descent(gs))
    &&& fits_i32(max_ascent(gs) + 1)
    &&& forall|i: int| 0 <= i < gs.len() ==> #[trigger] glyph_place_fits(gs, t, i)
}

/// The inputs the glyph layout handles: well-formed glyphs, every `i32` value
/// of the layout in range, and a canvas (with its one-pixel margin) that can
/// be allocated.
pub open spec fn layout_fits(gs: Seq<Glyph>, tracking: i32) -> bool {
    let t = spec_tracking(tracking);
    &&& layout_fits_at(gs, t)
    &&& (native_w(gs, t) + 2) * (native_h(gs) + 2) * 4 <= usize::MAX
}

proof fn lemma_extents_nonneg(gs: Seq<Glyph>)
    ensures
        max_ascent(gs) >= 0,
        max_descent(gs) >= 0,
    decreases gs.len(),
{
    if gs.len() > 0 {
        lemma_extents_nonneg(gs.drop_last());
    }
}

/// Run metrics: the run width and the largest ascent and descent.
fn run_metrics(glyphs: &Vec<Glyph>, t: i64) -> (r: (i64, i64, i64))
    requires
        0 <= t <= i32::MAX,
        layout_fits_at(glyphs@, t as int),
    ensures
        r.0 == run_width(glyphs@, t as int),
        r.1 == max_ascent(glyphs@),
        r.2 == max_descent(glyphs@),
{
    let ghost gs = glyphs@;
    let mut total: i64 = 0;
    let mut asc: i64 = 0;
    let mut desc: i64 = 0;
    let mut i: usize = 0;
    while i < glyphs.len()
        invariant
            gs == glyphs@,
            0 <= t <= i32::MAX,
            layout_fits_at(gs, t as int),
            i <= gs.len(),
            total == pen_x(gs, t as int, i as int) - 1,
            asc == max_ascent(gs.take(i as int)),
            desc == max_descent(gs.take(i as int)),
            fits_i32(asc as int),
            fits_i32(desc as int),
        decreases gs.len() - i,
    {
        proof {
            let tk = gs.take(i + 1);
            assert(tk.drop_last() == gs.take(i as int));
            assert(tk.last() == gs[i as int]);
            assert(glyph_ok(gs[i as int]));
            assert(fits_i32(gs[i as int].advance + t));
            assert(fits_i32(pen_x(gs, t as int, i + 1) - 1));
        }
        let g = &glyphs[i];
        let a = g.height as i64 + g.ymin as i64;
        let d = -(g.ymin as i64);
        if a > asc {
            asc = a;
        }
        if d > desc {
            desc = d;
        }
        total = total + (g.advance as i64 + t);
        i += 1;
    }
    assert(gs.take(gs.len() as int) == gs);
    assert(fits_i32(pen_x(gs, t as int, gs.len() as int) - 1));
    (total - t, asc, desc)
}

/// Lay glyphs out left to right on their native pixel grid, each centered in
/// its cell on a shared baseline, inked where coverage is above half, with a
/// one-pixel transparent margin around the run.
pub fn layout_glyphs(glyphs: &Vec<Glyph>, color: [u8; 3], tracking: i32) -> (img: Image)
    requires
        layout_fits(glyphs@, tracking),
    ensures
        img.wf(),
        img.w() == native_w(glyphs@, spec_tracking(tracking)) + 2,
        img.h() == native_h(glyphs@) + 2,
        forall|x: int, y: int|
            #![trigger img.pixel(x, y)]
            img.in_bounds(x, y) ==> img.pixel(x, y) == if inked_upto(
                glyphs@,
                spec_tracking(tracking),
                glyphs@.len() as int,
                x,
                y,
            ) {
                Rgba { r: color[0], g: color[1], b: color[2], a: 255 }
            } else {
                clear()
            },
{
    let ghost gs = glyphs@;
    let ink_color = Rgba { r: color[0], g: color[1], b: color[2], a: 255 };
    let t: i64 = if tracking < 0 { 0 } else { tracking as i64 };
    let ghost ti = t as int;
    let (total_width, max_asc, max_desc) = run_metrics(glyphs, t);
    proof {
        lemma_extents_nonneg(gs);
    }
    let native_h: i64 = if max_asc + max_desc > 1 { max_asc + max_desc } else { 1 };
    let native_w: i64 = if total_width > 1 { total_width } else { 1 };
    let mut img = Image::new((native_w + 2) as u32, (native_h + 2) as u32);
    let baseline_y = max_asc + 1;
    let mut x: i64 = 1;
    let mut i: usize = 0;
    while i < glyphs.len()
        invariant
            gs == glyphs@,
            ti == t,
            0 <= t <= i32::MAX,
            layout_fits_at(gs, ti),
            baseline_y == max_ascent(gs) + 1,
            i <= gs.len(),
            x == pen_x(gs, ti, i as int),
            img.wf(),
            img.w() == native_w + 2,
            img.h() == native_h + 2,
            forall|xx: int, yy: int|
                #![trigger img.pixel(xx, yy)]
                img.in_bounds(xx, yy) ==> img.pixel(xx, yy) == if inked_upto(gs, ti, i as int, xx, yy) {
                    ink_color
                } else {
                    clear()
                },
        decreases gs.len() - i,
    {
        let g = &glyphs[i];
        proof {
            assert(glyph_ok(gs[i as int]));
            assert(fits_i32(gs[i as int].advance + ti));
            assert(fits_i32(pen_x(gs, ti, i as int)));
            assert(fits_i32(pen_x(gs, ti, i + 1)));
            assert(glyph_place_fits(gs, ti, i as int));
            assert(fits_i32(glyph_x(gs, ti, i as int)));
            assert(fits_i32(glyph_y(gs, i as int)));
        }
        let cell_width = g.advance as i64;
        let glyph_width = g.xmin as i64 + g.width as i64;
        let diff = cell_width - glyph_width;
        let x_pad = if diff >= 0 { diff / 2 } else { -((-diff) / 2) };
        let gx = x + g.xmin as i64 + x_pad;
        let gy = baseline_y - g.height as i64 - g.ymin as i64;
        let ghost before = img;
        draw_glyph(&mut img, g, gx, gy, ink_color);
        proof {
            assert(gx == glyph_x(gs, ti, i as int));
            assert(gy == glyph_y(gs, i as int));
            assert forall|xx: int, yy: int| #![trigger img.pixel(xx, yy)] img.in_bounds(xx, yy) implies img.pixel(xx, yy)
                == if inked_upto(gs, ti, i + 1, xx, yy) {
                ink_color
            } else {
                clear()
            } by {
                assert(bitmap_inks(gs[i as int], gx as int, gy as int, xx, yy) == glyph_inks(gs, ti, i as int, xx, yy));
            }
        }
        x = x + cell_width + t;
        i += 1;
    }
    img
}

/// An in-bounds 4-neighbour of (x, y) has exactly the fill color.
pub open spec fn touches_fill(img: &Image, x: int, y: int, fill: Rgba) -> bool {
    (img.in_bounds(x, y - 1) && img.pixel(x, y - 1) == fill) || (img.in_bounds(x, y + 1)
        && img.pixel(x, y + 1) == fill) || (img.in_bounds(x - 1, y) && img.pixel(x - 1, y) == fill)
        || (img.in_bounds(x + 1, y) && img.pixel(x + 1, y) == fill)
}

/// `out` is `img` with `ink` in every fully transparent cell that touches a
/// fill-colored pixel.
pub open spec fn outlined_native(img: &Image, out: &Image, fill: Rgba, ink: Rgba) -> bool {
    &&& out.wf()
    &&& out.w() == img.w()
    &&& out.h() == img.h()
    &&& forall|x: int, y: int|
        #![trigger out.pixel(x, y)]
        img.in_bounds(x, y) ==> out.pixel(x, y) == if img.pixel(x, y).a == 0 && touches_fill(img, x, y, fill) {
            ink
        } else {
            img.pixel(x, y)
        }
}

fn is_fill_at(img: &Image, x: i64, y: i64, fill: Rgba) -> (b: bool)
    requires
        img.wf(),
    ensures
        b == (img.in_bounds(x as int, y as int) && img.pixel(x as int, y as int) == fill),
{
    if x >= 0 && y >= 0 && x < img.width() as i64 && y < img.height() as i64 {
        img.get_pixel(x as u32, y as u32) == fill
    } else {
        false
    }
}

/// Add a 1px outline around the filled glyph pixels at native resolution.
pub fn outline_native(img: &Image, fill: Rgba, ink: Rgba) -> (out: Image)
    requires
        img.wf(),
    ensures
        outlined_native(img, &out, fill, ink),
{
    let w = img.width();
    let h = img.height();
    let mut out = img.duplicate();
    let mut y: u32 = 0;
    while y < h
        invariant
            img.wf(),
            w == img.w(),
            h == img.h(),
            y <= h,
            out.wf(),
            out.w() == w,
            out.h() == h,
            forall|xx: int, yy: int|
                #![trigger out.pixel(xx, yy)]
                img.in_bounds(xx, yy) ==> out.pixel(xx, yy) == if yy < y && img.pixel(xx, yy).a == 0
                    && touches_fill(img, xx, yy, fill) {
                    ink
                } else {
                    img.pixel(xx, yy)
                },
        decreases h - y,
    {
        let mut x: u32 = 0;
        while x < w
            invariant
                img.wf(),
                w == img.w(),
                h == img.h(),
                y < h,
                x <= w,
                out.wf(),
                out.w() == w,
                out.h() == h,
                forall|xx: int, yy: int|
                    #![trigger out.pixel(xx, yy)]
                    img.in_bounds(xx, yy) ==> out.pixel(xx, yy) == if (yy < y || (yy == y && xx < x))
                        && img.pixel(xx, yy).a == 0 && touches_fill(img, xx, yy, fill) {
                        ink
                    } else {
                        img.pixel(xx, yy)
                    },
            decreases w - x,
        {
            if img.get_pixel(x, y).a == 0 {
                let xi = x as i64;
                let yi = y as i64;
                let touch = is_fill_at(img, xi, yi - 1, fill) || is_fill_at(img, xi, yi + 1, fill)
                    || is_fill_at(img, xi - 1, yi, fill) || is_fill_at(img, xi + 1, yi, fill);
                if touch {
                    out.put_pixel(x, y, ink);
                }
            }
            x += 1;
        }
        y += 1;
    }
    out
}

/// The layout, outline and scaling of a pixel-font text image.
pub open spec fn pixel_text_from(
    gs: Seq<Glyph>,
    color: [u8; 3],
    tracking: i32,
    outline: bool,
    scale: u32,
    native: &Image,
    bordered: &Image,
    out: &Image,
) -> bool {
    let fill = Rgba { r: color[0], g: color[1], b: color[2], a: 255 };
    &&& native.wf()
    &&& native.w() == native_w(gs, spec_tracking(tracking)) + 2
    &&& native.h() == native_h(gs) + 2
    &&& forall|x: int, y: int|
        #![trigger native.pixel(x, y)]
        native.in_bounds(x, y) ==> native.pixel(x, y) == if inked_upto(
            gs,
            spec_tracking(tracking),
            gs.len() as int,
            x,
            y,
        ) {
            fill
        } else {
            clear()
        }
    &&& if outline {
        outlined_native(native, bordered, fill, ink())
    } else {
        bordered.wf() && bordered.w() == native.w() && bordered.h() == native.h() && bordered.bytes()
            == native.bytes()
    }
    &&& out.wf()
    &&& if scale > 1 {
        &&& out.w() == bordered.w() * scale
        &&& out.h() == bordered.h() * scale
        &&& out.bytes() == resize_result(
            bordered.w(),
            bordered.h(),
            bordered.bytes(),
            out.w(),
            out.h(),
            ResizeFilter::Nearest,
        )
        &&& bordered.w() > 0 && bordered.h() > 0 ==> copies_pixels(bordered, out)
    } else {
        out.w() == bordered.w() && out.h() == bordered.h() && out.bytes() == bordered.bytes()
    }
}

/// The scaled canvas must fit.
pub open spec fn scaled_fits(gs: Seq<Glyph>, tracking: i32, scale: u32) -> bool {
    let w = native_w(gs, spec_tracking(tracking)) + 2;
    let h = native_h(gs) + 2;
    let z = if scale > 1 {
        scale as int
    } else {
        1
    };
    w * z <= u32::MAX && h * z <= u32::MAX && (w * z) * (h * z) * 4 <= usize::MAX
}

fn fits32(v: i64) -> (b: bool)
    ensures
        b == fits_i32(v as int),
{
    -0x8000_0000 <= v && v <= 0x7fff_ffff
}

fn glyph_ok_check(g: &Glyph) -> (b: bool)
    ensures
        b == glyph_ok(*g),
{
    if g.width > 0x7fff_ffff || g.height > 0x7fff_ffff {
        return false;
    }
    assert((g.width as u128) * (g.height as u128) <= 0x8000_0000 * 0x8000_0000) by (nonlinear_arith)
        requires
            g.width <= 0x7fff_ffff,
            g.height <= 0x7fff_ffff,
    ;
    let wh = (g.width as u128) * (g.height as u128);
    if (g.coverage.len() as u128) < wh {
        return false;
    }
    let w = g.width as i64;
    let h = g.height as i64;
    let xmin = g.xmin as i64;
    let ymin = g.ymin as i64;
    let adv = g.advance as i64;
    fits32(h + ymin) && fits32(-ymin) && fits32(xmin + w) && fits32(adv - (xmin + w))
}

/// Whether the glyph layout's `i32` values and canvases fit: what
/// `render_text_pixel` asks of its glyphs, spacing and scale.
pub fn pixel_text_fits(glyphs: &Vec<Glyph>, tracking: i32, scale: u32) -> (b: bool)
    ensures
        b == (layout_fits(glyphs@, tracking) && scaled_fits(glyphs@, tracking, scale)),
{
    let ghost gs = glyphs@;
    let t: i64 = if tracking < 0 { 0 } else { tracking as i64 };
    let ghost ti = t as int;
    assert(ti == spec_tracking(tracking));
    let n = glyphs.len();
    // Measuring pass: glyph shapes, advances, pen positions and extents.
    let mut pen: i64 = 1;
    let mut asc: i64 = 0;
    let mut desc: i64 = 0;
    let mut i: usize = 0;
    while i < n
        invariant
            gs == glyphs@,
            n == gs.len(),
            0 <= t <= i32::MAX,
            ti == t,
            ti == spec_tracking(tracking),
            i <= n,
            pen == pen_x(gs, ti, i as int),
            forall|j: int| 0 <= j < i ==> glyph_ok(#[trigger] gs[j]),
            forall|j: int| 0 <= j < i ==> fits_i32(#[trigger] gs[j].advance + ti),
            forall|j: int|
                0 <= j <= i ==> fits_i32(#[trigger] pen_x(gs, ti, j) - 1) && fits_i32(pen_x(gs, ti, j)),
            asc == max_ascent(gs.take(i as int)),
            desc == max_descent(gs.take(i as int)),
            fits_i32(asc as int),
            fits_i32(desc as int),
        decreases n - i,
    {
        let g = &glyphs[i];
        if !glyph_ok_check(g) {
            assert(!glyph_ok(gs[i as int]));
            return false;
        }
        let adv = g.advance as i64;
        if !fits32(adv + t) {
            assert(!fits_i32(gs[i as int].advance + ti));
            return false;
        }
        let next = pen + adv + t;
        if !fits32(next - 1) || !fits32(next) {
            assert(next == pen_x(gs, ti, i + 1));
            assert(!(fits_i32(pen_x(gs, ti, i + 1) - 1) && fits_i32(pen_x(gs, ti, i + 1))));
            return false;
        }
        proof {
            let tk = gs.take(i + 1);
            assert(tk.drop_last() == gs.take(i as int));
            assert(tk.last() == gs[i as int]);
        }
        let a = g.height as i64 + g.ymin as i64;
        let d = -(g.ymin as i64);
        if a > asc {
            asc = a;
        }
        if d > desc {
            desc = d;
        }
        pen = next;
        i += 1;
    }
    assert(gs.take(n as int) == gs);
    let run = pen - 1 - t;
    if !fits32(run) || !fits32(asc + desc) || !fits32(asc + 1) {
        return false;
    }
    // Drawing pass: each glyph's place and each inked pixel's position.
    let mut x: i64 = 1;
    let mut k: usize = 0;
    while k < n
        invariant
            gs == glyphs@,
            n == gs.len(),
            0 <= t <= i32::MAX,
            ti == t,
            ti == spec_tracking(tracking),
            k <= n,
            x == pen_x(gs, ti, k as int),
            asc == max_ascent(gs),
            desc == max_descent(gs),
            run == run_width(gs, ti),
            fits_i32(run as int),
            fits_i32(asc + desc),
            fits_i32(asc + 1),
            forall|j: int| 0 <= j < n ==> glyph_ok(#[trigger] gs[j]),
            forall|j: int| 0 <= j < n ==> fits_i32(#[trigger] gs[j].advance + ti),
            forall|j: int|
                0 <= j <= n ==> fits_i32(#[trigger] pen_x(gs, ti, j) - 1) && fits_i32(pen_x(gs, ti, j)),
            forall|j: int| 0 <= j < k ==> #[trigger] glyph_place_fits(gs, ti, j),
        decreases n - k,
    {
        let g = &glyphs[k];
        proof {
            assert(glyph_ok(gs[k as int]));
            assert(fits_i32(pen_x(gs, ti, k as int)));
            assert(fits_i32(pen_x(gs, ti, k + 1)));
        }
        let w = g.width as i64;
        let xmin = g.xmin as i64;
        let diff = g.advance as i64 - (xmin + w);
        let x_pad = if diff >= 0 { diff / 2 } else { -((-diff) / 2) };
        let gx = x + xmin + x_pad;
        let gy = asc + 1 - g.height as i64 - g.ymin as i64;
        assert(gx == glyph_x(gs, ti, k as int));
        assert(gy == glyph_y(gs, k as int));
        if !fits32(x + xmin) || !fits32(gx) || !fits32(asc + 1 - g.height as i64) || !fits32(gy) {
            assert(!glyph_place_fits(gs, ti, k as int));
            return false;
        }
        let ghost gk = gs[k as int];
        let mut row: usize = 0;
        while row < g.height
            invariant
                *g == gk,
                gs == glyphs@,
                k < n,
                n == gs.len(),
                ti == spec_tracking(tracking),
                gk == gs[k as int],
                gx == glyph_x(gs, ti, k as int),
                gy == glyph_y(gs, k as int),
                glyph_ok(gk),
                fits_i32(gx as int),
                fits_i32(gy as int),
                row <= g.height,
                forall|r: int, c: int|
                    0 <= r < row && 0 <= c < gk.width && #[trigger] cov_at(gk, r, c) > 128 ==> fits_i32(gx + c)
                        && fits_i32(gy + r),
            decreases g.height - row,
        {
            let mut col: usize = 0;
            while col < g.width
                invariant
                    *g == gk,
                    gs == glyphs@,
                    k < n,
                    n == gs.len(),
                    ti == spec_tracking(tracking),
                    gk == gs[k as int],
                    gx == glyph_x(gs, ti, k as int),
                    gy == glyph_y(gs, k as int),
                    glyph_ok(gk),
                    fits_i32(gx as int),
                    fits_i32(gy as int),
                    row < g.height,
                    col <= g.width,
                    forall|r: int, c: int|
                        0 <= r < row && 0 <= c < gk.width && #[trigger] cov_at(gk, r, c) > 128 ==> fits_i32(
                            gx + c,
                        ) && fits_i32(gy + r),
                    forall|c: int|
                        0 <= c < col && #[trigger] cov_at(gk, row as int, c) > 128 ==> fits_i32(gx + c) && fits_i32(
                            gy + row,
                        ),
                decreases g.width - col,
            {
                proof {
                    lemma_cov_index(g.width as int, g.height as int, row as int, col as int);
                }
                let cov_len = g.coverage.len();
                assert(row * g.width + col < cov_len);
                if g.coverage[row * g.width + col] > 128 {
                    assert(cov_at(gk, row as int, col as int) > 128);
                    if !fits32(gx + col as i64) || !fits32(gy + row as i64) {
                        assert(!glyph_place_fits(gs, ti, k as int));
                        return false;
                    }
                }
                col += 1;
            }
            row += 1;
        }
        assert(glyph_place_fits(gs, ti, k as int));
        x = x + g.advance as i64 + t;
        k += 1;
    }
    assert(forall|j: int| 0 <= j < gs.len() ==> glyph_ok(#[trigger] gs[j]));
    assert(forall|j: int| 0 <= j < gs.len() ==> fits_i32(#[trigger] gs[j].advance + ti));
    assert(layout_fits_at(gs, ti));
    let nw: u128 = if run > 1 { run as u128 } else { 1 };
    let nh: u128 = if asc + desc > 1 { (asc + desc) as u128 } else { 1 };
    let w = nw + 2;
    let h = nh + 2;
    assert(w * h * 4 <= 0x8000_0002 * 0x8000_0002 * 4) by (nonlinear_arith)
        requires
            w <= 0x8000_0002,
            h <= 0x8000_0002,
    ;
    if w * h * 4 > usize::MAX as u128 {
        return false;
    }
    let z: u128 = if scale > 1 { scale as u128 } else { 1 };
    assert(w * z <= 0x8000_0002 * 0x1_0000_0000 && h * z <= 0x8000_0002 * 0x1_0000_0000) by (nonlinear_arith)
        requires
            w <= 0x8000_0002,
            h <= 0x8000_0002,
            z <= 0x1_0000_0000,
    ;
    if w * z > u32::MAX as u128 || h * z > u32::MAX as u128 {
        return false;
    }
    assert((w * z) * (h * z) * 4 <= 0x1_0000_0000 * 0x1_0000_0000 * 4) by (nonlinear_arith)
        requires
            w * z <= u32::MAX,
            h * z <= u32::MAX,
    ;
    (w * z) * (h * z) * 4 <= usize::MAX as u128
}

/// Render text at the font's native pixel grid, outline it there if asked (so
/// the outline is one logical pixel thick), then scale up with
/// nearest-neighbor so pixels stay crisp.
pub fn render_text_pixel(
    glyphs: &Vec<Glyph>,
    color: [u8; 3],
    tracking: i32,
    outline: bool,
    scale: u32,
) -> (out: Image)
    requires
        layout_fits(glyphs@, tracking),
        scaled_fits(glyphs@, tracking, scale),
    ensures
        exists|native: Image, bordered: Image|
            #[trigger] pixel_text_from(glyphs@, color, tracking, outline, scale, &native, &bordered, &out),
        out.w() == (native_w(glyphs@, spec_tracking(tracking)) + 2) * if scale > 1 {
            scale as int
        } else {
            1int
        },
        out.h() == (native_h(glyphs@) + 2) * if scale > 1 {
            scale as int
        } else {
            1int
        },
{
    let fill = Rgba { r: color[0], g: color[1], b: color[2], a: 255 };
    let native = layout_glyphs(glyphs, color, tracking);
    let ghost n = native;
    let bordered = if outline {
        outline_native(&native, fill, Rgba { r: 26, g: 24, b: 30, a: 255 })
    } else {
        native
    };
    let ghost b = bordered;
    let out = if scale > 1 {
        let nw = bordered.width() * scale;
        let nh = bordered.height() * scale;
        assert(bordered.w() * nh * 4 <= nw * nh * 4) by (nonlinear_arith)
            requires
                nw == bordered.w() * scale,
                scale > 1,
        ;
        resize(&bordered, nw, nh, ResizeFilter::Nearest)
    } else {
        bordered
    };
    assert(pixel_text_from(glyphs@, color, tracking, outline, scale, &n, &b, &out));
    out
}

/// The native size of a pixel font, from the height of 'M' rasterized at each
/// size from 4 up (`heights[k]` at size `k + 4`): the first size above 6 at
/// which the height stops growing marks the previous size as the native grid.
pub open spec fn spec_native_size(heights: Seq<usize>) -> Option<u32>
    decreases heights.len(),
{
    if heights.len() < 4 {
        None
    } else {
        match spec_native_size(heights.drop_last()) {
            Some(s) => Some(s),
            None => {
                let k = heights.len() - 1;
                if heights[k] > 0 && heights[k] == heights[k - 1] {
                    Some((k + 3) as u32)
                } else {
                    None
                }
            },
        }
    }
}

/// Find the smallest size at which the font renders cleanly on its pixel
/// grid, given the heights measured at sizes 4, 5, ...; `None` when no grid
/// shows (the caller then uses its target size).
pub fn native_size_from_heights(heights: &Vec<usize>) -> (r: Option<u32>)
    requires
        heights@.len() + 3 <= u32::MAX,
    ensures
        r == spec_native_size(heights@),
{
    let mut prev: usize = 0;
    let mut k: usize = 0;
    while k < heights.len()
        invariant
            heights@.len() + 3 <= u32::MAX,
            k <= heights@.len(),
            spec_native_size(heights@.take(k as int)) is None,
            k > 0 ==> prev == heights@[k - 1],
        decreases heights@.len() - k,
    {
        let h = heights[k];
        proof {
            let t = heights@.take(k + 1);
            assert(t.drop_last() == heights@.take(k as int));
            assert(t[k as int] == h);
            if k > 0 {
                assert(t[k - 1] == heights@[k - 1]);
            }
        }
        if h > 0 && h == prev && k >= 3 {
            proof {
                lemma_native_size_prefix(heights@, k + 1);
            }
            return Some((k + 3) as u32);
        }
        prev = h;
        k += 1;
    }
    assert(heights@.take(heights@.len() as int) == heights@);
    None
}

/// Once a prefix of the heights decides the size, the rest does not matter.
proof fn lemma_native_size_prefix(heights: Seq<usize>, k: int)
    requires
        0 <= k <= heights.len(),
        spec_native_size(heights.take(k)) is Some,
    ensures
        spec_native_size(heights) == spec_native_size(heights.take(k)),
    decreases heights.len() - k,
{
    if k < heights.len() {
        let t = heights.take(k + 1);
        assert(t.drop_last() == heights.take(k));
        lemma_native_size_prefix(heights, k + 1);
    } else {
        assert(heights.take(k) == heights);
    }
}


/// Negative letter spacing is spacing zero: the layout accepts the same glyphs
/// and the rendered text is the same as with tracking 0.
pub proof fn lemma_negative_tracking_is_zero(
    gs: Seq<Glyph>,
    color: [u8; 3],
    tracking: i32,
    outline: bool,
    scale: u32,
    native: &Image,
    bordered: &Image,
    out: &Image,
)
    requires
        tracking < 0,
    ensures
        layout_fits(gs, tracking) == layout_fits(gs, 0),
        scaled_fits(gs, tracking, scale) == scaled_fits(gs, 0, scale),
        pixel_text_from(gs, color, tracking, outline, scale, native, bordered, out) == pixel_text_from(
            gs,
            color,
            0,
            outline,
            scale,
            native,
            bordered,
            out,
        ),
{
    assert(spec_tracking(tracking) == spec_tracking(0));
}


/// The text image is decided by its glyphs, color, spacing, outline and
/// scale: two renderings under spacings that the layout treats alike are the
/// same image.
proof fn lemma_pixel_text_unique(
    gs: Seq<Glyph>,
    color: [u8; 3],
    t1: i32,
    t2: i32,
    outline: bool,
    scale: u32,
    n1: &Image,
    b1: &Image,
    o1: &Image,
    n2: &Image,
    b2: &Image,
    o2: &Image,
)
    requires
        spec_tracking(t1) == spec_tracking(t2),
        pixel_text_from(gs, color, t1, outline, scale, n1, b1, o1),
        pixel_text_from(gs, color, t2, outline, scale, n2, b2, o2),
    ensures
        o1.w() == o2.w(),
        o1.h() == o2.h(),
        o1.bytes() == o2.bytes(),
{
    let w = n1.w() as int;
    let h = n1.h() as int;
    assert forall|x: int, y: int| 0 <= x < w && 0 <= y < h implies pixel_of(n1.bytes(), w, x, y) == pixel_of(
        n2.bytes(),
        w,
        x,
        y,
    ) by {
        assert(n1.pixel(x, y) == n2.pixel(x, y));
    }
    lemma_bytes_eq_from_pixels(n1.bytes(), n2.bytes(), w, h);
    if outline {
        assert forall|x: int, y: int| 0 <= x < w && 0 <= y < h implies pixel_of(b1.bytes(), w, x, y) == pixel_of(
            b2.bytes(),
            w,
            x,
            y,
        ) by {
            assert(b1.pixel(x, y) == b2.pixel(x, y));
        }
        lemma_bytes_eq_from_pixels(b1.bytes(), b2.bytes(), w, h);
    }
}

/// Negative letter spacing renders as spacing zero: rendering the same glyphs
/// with a negative spacing and with none gives the same image (each image as
/// `render_text_pixel` promises it).
pub proof fn lemma_negative_tracking_same_image(
    gs: Seq<Glyph>,
    color: [u8; 3],
    tracking: i32,
    outline: bool,
    scale: u32,
    out1: &Image,
    out2: &Image,
)
    requires
        tracking < 0,
        exists|n: Image, b: Image| #[trigger] pixel_text_from(gs, color, tracking, outline, scale, &n, &b, out1),
        exists|n: Image, b: Image| #[trigger] pixel_text_from(gs, color, 0, outline, scale, &n, &b, out2),
    ensures
        out1.w() == out2.w(),
        out1.h() == out2.h(),
        out1.bytes() == out2.bytes(),
{
    let (n1, b1) = choose|n: Image, b: Image| #[trigger] pixel_text_from(gs, color, tracking, outline, scale, &n, &b, out1);
    let (n2, b2) = choose|n: Image, b: Image| #[trigger] pixel_text_from(gs, color, 0, outline, scale, &n, &b, out2);
    lemma_pixel_text_unique(gs, color, tracking, 0, outline, scale, &n1, &b1, out1, &n2, &b2, out2);
}


/// Glyph bitmaps are read row by row: the canvas pixel `col` columns right
/// of and `row` rows below glyph `i`'s top-left corner is inked exactly when
/// the coverage byte at `row * width + col` is above half.
pub proof fn lemma_glyph_bitmap_row_major(gs: Seq<Glyph>, t: int, i: int, row: int, col: int)
    requires
        0 <= i < gs.len(),
        0 <= row < gs[i].height,
        0 <= col < gs[i].width,
    ensures
        glyph_inks(gs, t, i, glyph_x(gs, t, i) + col, glyph_y(gs, i) + row) == (gs[i].coverage@[row
            * gs[i].width + col] > 128),
{
}

/// The same holds of a bitmap drawn at any corner (gx, gy): the pixel `col`
/// right of and `row` below the corner is inked exactly when coverage byte
/// `row * width + col` is above half, and nothing outside the box is inked.
pub proof fn lemma_bitmap_row_major(g: Glyph, gx: int, gy: int, x: int, y: int)
    ensures
        0 <= y - gy < g.height && 0 <= x - gx < g.width ==> bitmap_inks(g, gx, gy, x, y) == (
        g.coverage@[(y - gy) * g.width + (x - gx)] > 128),
        bitmap_inks(g, gx, gy, x, y) ==> gx <= x < gx + g.width && gy <= y < gy + g.height,
{
}

/// A glyph inks nothing outside its own `width` x `height` box.
pub proof fn lemma_glyph_inks_inside_its_box(gs: Seq<Glyph>, t: int, i: int, x: int, y: int)
    requires
        0 <= i < gs.len(),
        glyph_inks(gs, t, i, x, y),
    ensures
        glyph_x(gs, t, i) <= x < glyph_x(gs, t, i) + gs[i].width,
        glyph_y(gs, i) <= y < glyph_y(gs, i) + gs[i].height,
{
}

} // verus!
