//! Turning a small raster into a crisp pixel-art sprite: hard alpha, a flat
//! palette, re-centering in its frame, a dark outline and a nearest-neighbour
//! zoom.

use vstd::prelude::*;

use crate::quantize::{opaque_colors, quantize_palette, recolor, spec_palette};
use crate::raster::{clear, copies_pixels, crop, overlay, overlay_result, pix, resize, resize_result, zeros, Image, ResizeFilter, Rgba};

verus! {

/// Rendering options for turning an emoji into pixel art.
#[derive(Clone, Copy, Debug)]
pub struct EmojiStyle {
    /// Logical pixels per side (the "art" resolution, chunky when small).
    pub grid: u32,
    /// Output pixels per logical pixel (nearest-neighbor zoom).
    pub zoom: u32,
    /// Number of colors in the reduced palette (0 = keep source colors).
    pub colors: u32,
    /// Draw a dark silhouette outline around the sprite.
    pub outline: bool,
}

/// Alpha below 110 becomes fully transparent (and black); anything else
/// becomes fully opaque with its color kept.
pub open spec fn snap_pixel(q: Rgba) -> Rgba {
    if q.a < 110 {
        clear()
    } else {
        Rgba { r: q.r, g: q.g, b: q.b, a: 255 }
    }
}

/// Every pixel is either fully transparent black or fully opaque.
pub open spec fn is_snapped(img: &Image) -> bool {
    forall|x: int, y: int|
        img.in_bounds(x, y) ==> (#[trigger] img.pixel(x, y) == clear() || img.pixel(x, y).a == 255)
}

/// Snap alpha to a hard edge: pixel art has no partial transparency.
pub fn snap_alpha(img: &mut Image)
    requires
        old(img).wf(),
    ensures
        final(img).wf(),
        final(img).w() == old(img).w(),
        final(img).h() == old(img).h(),
        forall|p: int|
            0 <= p < old(img).count() ==> #[trigger] pix(final(img).bytes(), p) == snap_pixel(
                pix(old(img).bytes(), p),
            ),
{
    let n = img.pixel_count();
    let ghost before = img.bytes();
    let mut p: usize = 0;
    while p < n
        invariant
            img.wf(),
            n == img.count(),
            img.w() == old(img).w(),
            img.h() == old(img).h(),
            before == old(img).bytes(),
            p <= n,
            forall|q: int| 0 <= q < p ==> #[trigger] pix(img.bytes(), q) == snap_pixel(pix(before, q)),
            forall|q: int| p <= q < n ==> #[trigger] pix(img.bytes(), q) == pix(before, q),
        decreases n - p,
    {
        let q = img.get_pixel_at(p);
        if q.a < 110 {
            img.put_pixel_at(p, Rgba { r: 0, g: 0, b: 0, a: 0 });
        } else {
            img.put_pixel_at(p, Rgba { r: q.r, g: q.g, b: q.b, a: 255 });
        }
        p += 1;
    }
}

/// A pixel with any opacity at all.
pub open spec fn opaque_at(img: &Image, x: int, y: int) -> bool {
    img.in_bounds(x, y) && img.pixel(x, y).a > 0
}

pub open spec fn has_opaque(img: &Image) -> bool {
    exists|x: int, y: int| opaque_at(img, x, y)
}

/// [x0, x1] x [y0, y1] is the smallest box holding every pixel with opacity.
pub open spec fn is_content_box(img: &Image, x0: int, y0: int, x1: int, y1: int) -> bool {
    &&& forall|x: int, y: int| opaque_at(img, x, y) ==> x0 <= x <= x1 && y0 <= y <= y1
    &&& exists|y: int| opaque_at(img, x0, y)
    &&& exists|y: int| opaque_at(img, x1, y)
    &&& exists|x: int| opaque_at(img, x, y0)
    &&& exists|x: int| opaque_at(img, x, y1)
}

/// An image has at most one content box.
pub proof fn lemma_content_box_unique(
    img: &Image,
    x0: int,
    y0: int,
    x1: int,
    y1: int,
    a0: int,
    b0: int,
    a1: int,
    b1: int,
)
    requires
        is_content_box(img, x0, y0, x1, y1),
        is_content_box(img, a0, b0, a1, b1),
    ensures
        x0 == a0 && y0 == b0 && x1 == a1 && y1 == b1,
{
    let y = choose|y: int| opaque_at(img, x0, y);
    let y2 = choose|y: int| opaque_at(img, a0, y);
    let y3 = choose|y: int| opaque_at(img, x1, y);
    let y4 = choose|y: int| opaque_at(img, a1, y);
    let x = choose|x: int| opaque_at(img, x, y0);
    let x2 = choose|x: int| opaque_at(img, x, b0);
    let x3 = choose|x: int| opaque_at(img, x, y1);
    let x4 = choose|x: int| opaque_at(img, x, b1);
    assert(opaque_at(img, x0, y) && opaque_at(img, a0, y2) && opaque_at(img, x1, y3) && opaque_at(
        img,
        a1,
        y4,
    ));
    assert(opaque_at(img, x, y0) && opaque_at(img, x2, b0) && opaque_at(img, x3, y1) && opaque_at(
        img,
        x4,
        b1,
    ));
}

/// Smallest box around the pixels with opacity, if any.
pub fn content_bounds(img: &Image) -> (r: Option<(u32, u32, u32, u32)>)
    requires
        img.wf(),
    ensures
        r is None <==> !has_opaque(img),
        r matches Some(b) ==> is_content_box(img, b.0 as int, b.1 as int, b.2 as int, b.3 as int),
{
    let w = img.width();
    let h = img.height();
    let mut min_x: u32 = u32::MAX;
    let mut min_y: u32 = u32::MAX;
    let mut max_x: u32 = 0;
    let mut max_y: u32 = 0;
    let mut any = false;
    let ghost mut wx0: int = 0;
    let ghost mut wx1: int = 0;
    let ghost mut wy0: int = 0;
    let ghost mut wy1: int = 0;
    let mut y: u32 = 0;
    while y < h
        invariant
            img.wf(),
            w == img.w(),
            h == img.h(),
            y <= h,
            !any ==> forall|a: int, b: int| opaque_at(img, a, b) ==> b >= y,
            any ==> forall|a: int, b: int|
                opaque_at(img, a, b) && b < y ==> min_x <= a <= max_x && min_y <= b <= max_y,
            any ==> opaque_at(img, min_x as int, wx0) && opaque_at(img, max_x as int, wx1)
                && opaque_at(img, wy0, min_y as int) && opaque_at(img, wy1, max_y as int),
        decreases h - y,
    {
        let mut x: u32 = 0;
        while x < w
            invariant
                img.wf(),
                w == img.w(),
                h == img.h(),
                y < h,
                x <= w,
                !any ==> forall|a: int, b: int|
                    opaque_at(img, a, b) ==> b > y || (b == y && a >= x),
                any ==> forall|a: int, b: int|
                    opaque_at(img, a, b) && (b < y || (b == y && a < x)) ==> min_x <= a <= max_x
                        && min_y <= b <= max_y,
                any ==> opaque_at(img, min_x as int, wx0) && opaque_at(img, max_x as int, wx1)
                    && opaque_at(img, wy0, min_y as int) && opaque_at(img, wy1, max_y as int),
            decreases w - x,
        {
            if img.get_pixel(x, y).a > 0 {
                if !any || x < min_x {
                    min_x = x;
                    proof {
                        wx0 = y as int;
                    }
                }
                if !any || y < min_y {
                    min_y = y;
                    proof {
                        wy0 = x as int;
                    }
                }
                if !any || x > max_x {
                    max_x = x;
                    proof {
                        wx1 = y as int;
                    }
                }
                if !any || y > max_y {
                    max_y = y;
                    proof {
                        wy1 = x as int;
                    }
                }
                any = true;
            }
            x += 1;
        }
        y += 1;
    }
    if !any {
        return None;
    }
    assert(opaque_at(img, min_x as int, wx0));
    assert(opaque_at(img, max_x as int, wx1));
    assert(opaque_at(img, wy0, min_y as int));
    assert(opaque_at(img, wy1, max_y as int));
    Some((min_x, min_y, max_x, max_y))
}

/// Where the content box [x0, x1] x [y0, y1] lands when re-centered in a
/// `w` x `h` frame: its new top-left corner (rounding toward the top-left).
pub open spec fn center_target(w: int, h: int, x0: int, y0: int, x1: int, y1: int) -> (int, int) {
    ((w - (x1 - x0 + 1)) / 2, (h - (y1 - y0 + 1)) / 2)
}

/// `out` is `img` with its content box moved to its centered position on a
/// transparent frame of the same size: inside the moved box each opaque source
/// pixel is copied and each transparent one leaves the canvas transparent;
/// outside it everything is transparent.
pub open spec fn moved_content(img: &Image, out: &Image, x0: int, y0: int, x1: int, y1: int) -> bool {
    let (tx, ty) = center_target(img.w() as int, img.h() as int, x0, y0, x1, y1);
    forall|x: int, y: int|
        #![trigger out.pixel(x, y)]
        out.in_bounds(x, y) ==> if tx <= x < tx + (x1 - x0 + 1) && ty <= y < ty + (y1 - y0 + 1) {
            let s = img.pixel(x - tx + x0, y - ty + y0);
            (s.a == 0 ==> out.pixel(x, y) == clear()) && (s.a == 255 ==> out.pixel(x, y) == s)
        } else {
            out.pixel(x, y) == clear()
        }
}

/// `content` is the box [x0, x1] x [y0, y1] of `img`, copied out.
pub open spec fn box_copy(img: &Image, content: &Image, x0: int, y0: int, x1: int, y1: int) -> bool {
    &&& content.wf()
    &&& content.w() == x1 - x0 + 1
    &&& content.h() == y1 - y0 + 1
    &&& forall|i: int, j: int|
        content.in_bounds(i, j) ==> #[trigger] content.pixel(i, j) == img.pixel(x0 + i, y0 + j)
}

/// The bytes of the re-centered frame: the content box copied out and drawn
/// with `image`'s overlay at its centered place on a transparent frame.
pub open spec fn moved_bytes(img: &Image, out: &Image, x0: int, y0: int, x1: int, y1: int) -> bool {
    let (tx, ty) = center_target(img.w() as int, img.h() as int, x0, y0, x1, y1);
    exists|content: Image|
        #[trigger] box_copy(img, &content, x0, y0, x1, y1) && out.bytes() == overlay_result(
            img.w(),
            img.h(),
            zeros(img.w() * img.h() * 4),
            content.w(),
            content.h(),
            content.bytes(),
            tx,
            ty,
        )
}

/// The relation between a frame and its re-centered version.
pub open spec fn recentered(img: &Image, out: &Image) -> bool {
    &&& out.wf()
    &&& out.w() == img.w()
    &&& out.h() == img.h()
    &&& !has_opaque(img) ==> out.bytes() == img.bytes()
    &&& has_opaque(img) ==> exists|x0: int, y0: int, x1: int, y1: int|
        is_content_box(img, x0, y0, x1, y1)
    &&& forall|x0: int, y0: int, x1: int, y1: int|
        #[trigger] is_content_box(img, x0, y0, x1, y1) ==> {
            let (tx, ty) = center_target(img.w() as int, img.h() as int, x0, y0, x1, y1);
            if tx == x0 && ty == y0 {
                out.bytes() == img.bytes()
            } else {
                moved_content(img, out, x0, y0, x1, y1) && moved_bytes(img, out, x0, y0, x1, y1)
            }
        }
}

/// Recenter the opaque content within its existing frame (no crop, no
/// resize), so emoji that the source draws off-center don't float in the row.
pub fn center_in_frame(img: Image) -> (out: Image)
    requires
        img.wf(),
    ensures
        recentered(&img, &out),
{
    let b = content_bounds(&img);
    let (min_x, min_y, max_x, max_y) = match b {
        None => return img,
        Some(b) => b,
    };
    let ghost x0 = min_x as int;
    let ghost y0 = min_y as int;
    let ghost x1 = max_x as int;
    let ghost y1 = max_y as int;
    assert(is_content_box(&img, x0, y0, x1, y1));
    proof {
        assert forall|a0: int, b0: int, a1: int, b1: int|
            #[trigger] is_content_box(&img, a0, b0, a1, b1) implies a0 == x0 && b0 == y0 && a1 == x1
            && b1 == y1 by {
            lemma_content_box_unique(&img, x0, y0, x1, y1, a0, b0, a1, b1);
        }
        let y = choose|y: int| opaque_at(&img, x1, y);
        let x = choose|x: int| opaque_at(&img, x, y1);
        assert(opaque_at(&img, x1, y) && opaque_at(&img, x, y1));
        let yy = choose|y: int| opaque_at(&img, x0, y);
        assert(opaque_at(&img, x0, yy));
        assert(x0 <= x1 && y0 <= y1);
        assert(x1 < img.w() && y1 < img.h());
    }
    assert(min_x <= max_x && max_x < img.w());
    assert(min_y <= max_y && max_y < img.h());
    let cw = max_x - min_x + 1;
    let ch = max_y - min_y + 1;
    let target_x = (img.width() - cw) / 2;
    let target_y = (img.height() - ch) / 2;
    if target_x == min_x && target_y == min_y {
        return img;
    }
    let content = crop(&img, min_x, min_y, cw, ch);
    let mut out = Image::new(img.width(), img.height());
    let ghost blank = out;
    overlay(&mut out, &content, target_x as i64, target_y as i64);
    proof {
        assert forall|x: int, y: int| #![trigger out.pixel(x, y)] out.in_bounds(x, y) implies if target_x <= x
            < target_x + cw && target_y <= y < target_y + ch {
            let s = img.pixel(x - target_x + x0, y - target_y + y0);
            (s.a == 0 ==> out.pixel(x, y) == clear()) && (s.a == 255 ==> out.pixel(x, y) == s)
        } else {
            out.pixel(x, y) == clear()
        } by {
            assert(blank.pixel(x, y) == clear());
            if target_x <= x < target_x + cw && target_y <= y < target_y + ch {
                assert(content.pixel(x - target_x, y - target_y) == img.pixel(
                    x - target_x + x0,
                    y - target_y + y0,
                ));
            }
        }
        assert(moved_content(&img, &out, x0, y0, x1, y1));
        assert(box_copy(&img, &content, x0, y0, x1, y1));
        assert(moved_bytes(&img, &out, x0, y0, x1, y1));
    }
    out
}

/// The dark ink of outlines.
pub open spec fn ink() -> Rgba {
    Rgba { r: 26, g: 24, b: 30, a: 255 }
}

/// (x, y) is 4-adjacent to a pixel with opacity.
pub open spec fn touches_opaque(img: &Image, x: int, y: int) -> bool {
    opaque_at(img, x, y - 1) || opaque_at(img, x, y + 1) || opaque_at(img, x - 1, y) || opaque_at(
        img,
        x + 1,
        y,
    )
}

/// `ring` is the outline alone: a transparent canvas one pixel larger than
/// `img` on every side, with ink in each cell that has no opacity itself but
/// touches a pixel that has.
pub open spec fn outline_ring(img: &Image, ring: &Image) -> bool {
    &&& ring.wf()
    &&& ring.w() == img.w() + 2
    &&& ring.h() == img.h() + 2
    &&& forall|x: int, y: int|
        #![trigger ring.pixel(x, y)]
        ring.in_bounds(x, y) ==> ring.pixel(x, y) == if !opaque_at(img, x - 1, y - 1) && touches_opaque(
            img,
            x - 1,
            y - 1,
        ) {
            ink()
        } else {
            clear()
        }
}

/// `out` is `img` on a canvas one pixel larger on every side, with dark ink in
/// every cell that has no opacity itself but touches a pixel that has; opaque
/// sprite pixels are drawn on top.
pub open spec fn outlined(img: &Image, out: &Image) -> bool {
    &&& out.wf()
    &&& out.w() == img.w() + 2
    &&& out.h() == img.h() + 2
    &&& forall|x: int, y: int|
        #![trigger out.pixel(x, y)]
        out.in_bounds(x, y) ==> if opaque_at(img, x - 1, y - 1) {
            img.pixel(x - 1, y - 1).a == 255 ==> out.pixel(x, y) == img.pixel(x - 1, y - 1)
        } else {
            out.pixel(x, y) == if touches_opaque(img, x - 1, y - 1) {
                ink()
            } else {
                clear()
            }
        }
    &&& exists|ring: Image|
        #[trigger] outline_ring(img, &ring) && out.bytes() == overlay_result(
            ring.w(),
            ring.h(),
            ring.bytes(),
            img.w(),
            img.h(),
            img.bytes(),
            1,
            1,
        )
}

/// `(px, py)` comes before `(cx, cy)` in row-major order.
pub open spec fn scanned(px: int, py: int, cx: int, cy: int) -> bool {
    py < cy || (py == cy && px < cx)
}

/// (x, y) is a cell without opacity touching an opaque pixel already visited.
pub open spec fn inked_before(img: &Image, x: int, y: int, cx: int, cy: int) -> bool {
    !opaque_at(img, x, y) && ((opaque_at(img, x, y - 1) && scanned(x, y - 1, cx, cy)) || (
    opaque_at(img, x, y + 1) && scanned(x, y + 1, cx, cy)) || (opaque_at(img, x - 1, y) && scanned(
        x - 1,
        y,
        cx,
        cy,
    )) || (opaque_at(img, x + 1, y) && scanned(x + 1, y, cx, cy)))
}

/// Ink the canvas cell of sprite position (nx, ny) unless that position holds
/// a pixel with opacity.
fn ink_neighbor(out: &mut Image, img: &Image, nx: i64, ny: i64)
    requires
        img.wf(),
        old(out).wf(),
        old(out).w() == img.w() + 2,
        old(out).h() == img.h() + 2,
        -1 <= nx <= img.w(),
        -1 <= ny <= img.h(),
    ensures
        final(out).wf(),
        final(out).w() == old(out).w(),
        final(out).h() == old(out).h(),
        forall|x: int, y: int|
            #![trigger final(out).pixel(x, y)]
            old(out).in_bounds(x, y) ==> final(out).pixel(x, y) == if x == nx + 1 && y == ny + 1
                && !opaque_at(img, nx as int, ny as int) {
                ink()
            } else {
                old(out).pixel(x, y)
            },
{
    let inside = nx >= 0 && ny >= 0 && (nx as u64) < (img.width() as u64) && (ny as u64) < (
    img.height() as u64);
    let is_edge = !inside || img.get_pixel(nx as u32, ny as u32).a == 0;
    if is_edge {
        out.put_pixel((nx + 1) as u32, (ny + 1) as u32, Rgba { r: 26, g: 24, b: 30, a: 255 });
    }
}

/// Draw a 1-pixel dark outline in the transparent cells that touch the
/// silhouette, then the sprite on top.
pub fn add_outline(img: &Image) -> (out: Image)
    requires
        img.wf(),
        img.w() + 2 <= u32::MAX,
        img.h() + 2 <= u32::MAX,
        (img.w() + 2) * (img.h() + 2) * 4 <= usize::MAX,
    ensures
        outlined(img, &out),
{
    let w = img.width();
    let h = img.height();
    let mut out = Image::new(w + 2, h + 2);
    let mut y: u32 = 0;
    while y < h
        invariant
            img.wf(),
            w == img.w(),
            h == img.h(),
            y <= h,
            out.wf(),
            out.w() == w + 2,
            out.h() == h + 2,
            forall|a: int, b: int|
                #![trigger out.pixel(a, b)]
                out.in_bounds(a, b) ==> out.pixel(a, b) == if inked_before(
                    img,
                    a - 1,
                    b - 1,
                    0,
                    y as int,
                ) {
                    ink()
                } else {
                    clear()
                },
        decreases h - y,
    {
        let mut x: u32 = 0;
        while x < w
            invariant
                img.wf(),
                w == img.w(),
                h == img.h(),
                y < h,
                x <= w,
                out.wf(),
                out.w() == w + 2,
                out.h() == h + 2,
                forall|a: int, b: int|
                    #![trigger out.pixel(a, b)]
                    out.in_bounds(a, b) ==> out.pixel(a, b) == if inked_before(
                        img,
                        a - 1,
                        b - 1,
                        x as int,
                        y as int,
                    ) {
                        ink()
                    } else {
                        clear()
                    },
            decreases w - x,
        {
            if img.get_pixel(x, y).a != 0 {
                let xi = x as i64;
                let yi = y as i64;
                ink_neighbor(&mut out, img, xi, yi - 1);
                ink_neighbor(&mut out, img, xi, yi + 1);
                ink_neighbor(&mut out, img, xi - 1, yi);
                ink_neighbor(&mut out, img, xi + 1, yi);
            }
            x += 1;
        }
        y += 1;
    }
    let ghost base = out;
    overlay(&mut out, img, 1, 1);
    assert forall|a: int, b: int| #![trigger out.pixel(a, b)] out.in_bounds(a, b) implies if opaque_at(
        img,
        a - 1,
        b - 1,
    ) {
        img.pixel(a - 1, b - 1).a == 255 ==> out.pixel(a, b) == img.pixel(a - 1, b - 1)
    } else {
        out.pixel(a, b) == if touches_opaque(img, a - 1, b - 1) {
            ink()
        } else {
            clear()
        }
    } by {
        assert(base.pixel(a, b) == if inked_before(img, a - 1, b - 1, 0, h as int) {
            ink()
        } else {
            clear()
        });
    }
    assert forall|a: int, b: int| #![trigger base.pixel(a, b)] base.in_bounds(a, b) implies base.pixel(a, b)
        == if !opaque_at(img, a - 1, b - 1) && touches_opaque(img, a - 1, b - 1) {
        ink()
    } else {
        clear()
    } by {
        assert(base.pixel(a, b) == if inked_before(img, a - 1, b - 1, 0, h as int) {
            ink()
        } else {
            clear()
        });
    }
    assert(outline_ring(img, &base));
    out
}

/// Two images with the same shape and bytes.
pub open spec fn same_image(a: &Image, b: &Image) -> bool {
    a.w() == b.w() && a.h() == b.h() && a.bytes() == b.bytes()
}

/// `s` is `a` with every pixel snapped to hard alpha.
pub open spec fn snapped_from(a: &Image, s: &Image) -> bool {
    &&& s.wf()
    &&& s.w() == a.w()
    &&& s.h() == a.h()
    &&& forall|p: int| 0 <= p < a.count() ==> #[trigger] pix(s.bytes(), p) == snap_pixel(pix(a.bytes(), p))
}

/// `q` is `a` reduced to a palette of at most `colors` entries (unchanged
/// when `colors` is 0 or nothing is opaque).
pub open spec fn quantized_from(a: &Image, q: &Image, colors: u32) -> bool {
    let cs = opaque_colors(a.bytes(), a.count() as int);
    &&& q.wf()
    &&& q.w() == a.w()
    &&& q.h() == a.h()
    &&& if colors == 0 || cs.len() == 0 {
        q.bytes() == a.bytes()
    } else {
        forall|p: int|
            0 <= p < a.count() ==> #[trigger] pix(q.bytes(), p) == recolor(
                pix(a.bytes(), p),
                spec_palette(cs, colors as int),
            )
    }
}

/// The whole finishing pipeline: snap, reduce the palette, re-center,
/// optionally outline, then zoom with nearest-neighbor sampling.
pub open spec fn finished_from(
    input: &Image,
    snapped: &Image,
    reduced: &Image,
    centered: &Image,
    bordered: &Image,
    out: &Image,
    style: EmojiStyle,
) -> bool {
    &&& snapped_from(input, snapped)
    &&& quantized_from(snapped, reduced, style.colors)
    &&& recentered(reduced, centered)
    &&& if style.outline {
        outlined(centered, bordered)
    } else {
        same_image(centered, bordered)
    }
    &&& bordered.wf()
    &&& out.wf()
    &&& if style.zoom > 1 {
        &&& out.w() == bordered.w() * style.zoom
        &&& out.h() == bordered.h() * style.zoom
        &&& out.bytes() == resize_result(
            bordered.w(),
            bordered.h(),
            bordered.bytes(),
            out.w(),
            out.h(),
            ResizeFilter::Nearest,
        )
        &&& bordered.w() > 0 && bordered.h() > 0 ==> copies_pixels(bordered, out)
    } else {
        same_image(bordered, out)
    }
}

/// The sizes `finish_sprite` must be able to allocate and address: the frame
/// with its outline margin, zoomed.
pub open spec fn finish_fits(w: nat, h: nat, style: EmojiStyle) -> bool {
    let bw = if style.outline {
        w + 2
    } else {
        w
    };
    let bh = if style.outline {
        h + 2
    } else {
        h
    };
    let z = if style.zoom > 1 {
        style.zoom as nat
    } else {
        1
    };
    &&& bw * z <= u32::MAX
    &&& bh * z <= u32::MAX
    &&& (bw * z) * (bh * z) * 4 <= usize::MAX
}

/// Whether `finish_sprite` can take a `w` x `h` frame with `style`.
pub fn finish_fits_check(w: u32, h: u32, style: EmojiStyle) -> (b: bool)
    ensures
        b == finish_fits(w as nat, h as nat, style),
{
    let bw: u128 = if style.outline { w as u128 + 2 } else { w as u128 };
    let bh: u128 = if style.outline { h as u128 + 2 } else { h as u128 };
    let z: u128 = if style.zoom > 1 { style.zoom as u128 } else { 1 };
    assert(bw * z <= 0x1_0000_0002 * 0x1_0000_0000 && bh * z <= 0x1_0000_0002 * 0x1_0000_0000) by (nonlinear_arith)
        requires
            bw <= 0x1_0000_0002,
            bh <= 0x1_0000_0002,
            z <= 0x1_0000_0000,
    ;
    if bw * z > u32::MAX as u128 || bh * z > u32::MAX as u128 {
        return false;
    }
    assert((bw * z) * (bh * z) * 4 <= 0x1_0000_0000 * 0x1_0000_0000 * 4) by (nonlinear_arith)
        requires
            bw * z <= u32::MAX,
            bh * z <= u32::MAX,
    ;
    (bw * z) * (bh * z) * 4 <= usize::MAX as u128
}

proof fn lemma_grow_le(a: int, b: int, z: int)
    requires
        a >= 0,
        b >= 0,
        z >= 1,
    ensures
        a * b <= (a * z) * (b * z),
        a * b <= (a * z) * b,
        a * z >= a,
        b * z >= b,
{
    assert(a * b <= (a * z) * (b * z) && a * b <= (a * z) * b && a * z >= a && b * z >= b) by (nonlinear_arith)
        requires
            a >= 0,
            b >= 0,
            z >= 1,
    ;
}

/// Shared finishing pipeline: crisp alpha, palette reduction, outline, zoom.
pub fn finish_sprite(grid_img: Image, style: EmojiStyle) -> (out: Image)
    requires
        grid_img.wf(),
        finish_fits(grid_img.w(), grid_img.h(), style),
    ensures
        exists|s: Image, q: Image, c: Image, b: Image|
            #[trigger] finished_from(&grid_img, &s, &q, &c, &b, &out, style),
        out.w() == (grid_img.w() + if style.outline { 2int } else { 0int }) * if style.zoom > 1 {
            style.zoom as int
        } else {
            1int
        },
        out.h() == (grid_img.h() + if style.outline { 2int } else { 0int }) * if style.zoom > 1 {
            style.zoom as int
        } else {
            1int
        },
{
    let ghost input = grid_img;
    let mut img = grid_img;
    snap_alpha(&mut img);
    let ghost s = img;
    if style.colors > 0 {
        quantize_palette(&mut img, style.colors as usize);
    }
    let ghost q = img;
    let centered = center_in_frame(img);
    let ghost c = centered;
    let w = centered.width();
    let h = centered.height();
    let bordered = if style.outline {
        proof {
            let z: int = if style.zoom > 1 { style.zoom as int } else { 1 };
            lemma_grow_le((w + 2) as int, (h + 2) as int, z);
        }
        add_outline(&centered)
    } else {
        centered
    };
    let ghost b = bordered;
    let out = if style.zoom > 1 {
        let nw = bordered.width() * style.zoom;
        let nh = bordered.height() * style.zoom;
        proof {
            lemma_grow_le(bordered.w() as int, nh as int, style.zoom as int);
        }
        resize(&bordered, nw, nh, ResizeFilter::Nearest)
    } else {
        bordered
    };
    assert(finished_from(&input, &s, &q, &c, &b, &out, style));
    out
}


/// The sizes `fit_into_grid` needs: the resized raster fits the grid, and the
/// canvas and the resize's column pass (`w` x `nh`) can be allocated.
pub open spec fn fit_fits(w: nat, grid: u32, nw: u32, nh: u32) -> bool {
    &&& nw <= grid
    &&& nh <= grid
    &&& grid * grid * 4 <= usize::MAX
    &&& w * nh * 4 <= usize::MAX
}

/// Whether `fit_into_grid` can take a raster `w` columns wide.
pub fn fit_fits_check(w: u32, grid: u32, nw: u32, nh: u32) -> (b: bool)
    ensures
        b == fit_fits(w as nat, grid, nw, nh),
{
    if nw > grid || nh > grid {
        return false;
    }
    let g = grid as u128;
    assert(g * g * 4 <= 0x1_0000_0000 * 0x1_0000_0000 * 4 && (w as u128) * (nh as u128) * 4 <= 0x1_0000_0000
        * 0x1_0000_0000 * 4) by (nonlinear_arith)
        requires
            g <= u32::MAX,
            w <= u32::MAX,
            nh <= u32::MAX,
    ;
    g * g * 4 <= usize::MAX as u128 && (w as u128) * (nh as u128) * 4 <= usize::MAX as u128
}

/// Fit a raster into a centered `grid` x `grid` canvas: smoothly resized to
/// `nw` x `nh` (the size its aspect ratio allows in the grid), then drawn on a
/// transparent canvas with the slack split evenly, rounding toward the
/// top-left.
pub fn fit_into_grid(img: &Image, grid: u32, nw: u32, nh: u32) -> (out: Image)
    requires
        img.wf(),
        fit_fits(img.w(), grid, nw, nh),
    ensures
        out.wf(),
        out.w() == grid,
        out.h() == grid,
        out.bytes() == overlay_result(
            grid as nat,
            grid as nat,
            zeros((grid * grid * 4) as nat),
            nw as nat,
            nh as nat,
            resize_result(img.w(), img.h(), img.bytes(), nw as nat, nh as nat, ResizeFilter::Triangle),
            (grid - nw) / 2,
            (grid - nh) / 2,
        ),
{
    assert(nw * nh * 4 <= grid * grid * 4) by (nonlinear_arith)
        requires
            nw <= grid,
            nh <= grid,
    ;
    let resized = resize(img, nw, nh, ResizeFilter::Triangle);
    let mut canvas = Image::new(grid, grid);
    let ox = (grid - nw) / 2;
    let oy = (grid - nh) / 2;
    overlay(&mut canvas, &resized, ox as i64, oy as i64);
    canvas
}

/// A supersampled rendering brought down to the `grid` x `grid` logical grid
/// with a smoothing filter.
pub open spec fn on_grid(hi: &Image, grid: u32, g: &Image) -> bool {
    &&& g.wf()
    &&& g.w() == grid
    &&& g.h() == grid
    &&& g.bytes() == resize_result(hi.w(), hi.h(), hi.bytes(), grid as nat, grid as nat, ResizeFilter::Triangle)
}

/// The sizes `sprite_from_render` needs for a rendering `w` columns wide: the
/// grid and the resize's column pass can be allocated, and the sprite can be
/// finished.
pub open spec fn render_fits(w: nat, style: EmojiStyle) -> bool {
    &&& style.grid * style.grid * 4 <= usize::MAX
    &&& w * style.grid * 4 <= usize::MAX
    &&& finish_fits(style.grid as nat, style.grid as nat, style)
}

/// Whether `sprite_from_render` can take a rendering `w` columns wide.
pub fn render_fits_check(w: u32, style: EmojiStyle) -> (b: bool)
    ensures
        b == render_fits(w as nat, style),
{
    let g = style.grid as u128;
    assert(g * g * 4 <= 0x1_0000_0000 * 0x1_0000_0000 * 4 && (w as u128) * g * 4 <= 0x1_0000_0000
        * 0x1_0000_0000 * 4) by (nonlinear_arith)
        requires
            g <= u32::MAX,
            w <= u32::MAX,
    ;
    g * g * 4 <= usize::MAX as u128 && (w as u128) * g * 4 <= usize::MAX as u128 && finish_fits_check(
        style.grid,
        style.grid,
        style,
    )
}

/// Downscale a supersampled rendering of the artwork to the logical grid,
/// averaging it into flat colors, and finish it as a sprite.
pub fn sprite_from_render(hi: &Image, style: EmojiStyle) -> (out: Image)
    requires
        hi.wf(),
        render_fits(hi.w(), style),
    ensures
        exists|g: Image, s: Image, q: Image, c: Image, b: Image|
            on_grid(hi, style.grid, &g) && #[trigger] finished_from(&g, &s, &q, &c, &b, &out, style),
{
    let grid_img = resize(hi, style.grid, style.grid, ResizeFilter::Triangle);
    let ghost g = grid_img;
    let out = finish_sprite(grid_img, style);
    proof {
        let (s, q, c, b) = choose|s: Image, q: Image, c: Image, b: Image|
            #[trigger] finished_from(&g, &s, &q, &c, &b, &out, style);
        assert(on_grid(hi, style.grid, &g) && finished_from(&g, &s, &q, &c, &b, &out, style));
    }
    out
}

/// Pixel art has no partial transparency: the finished sprite holds only
/// fully transparent black and fully opaque pixels, before its zoom and
/// after it (the nearest-neighbour zoom only copies pixels).
pub proof fn lemma_finished_sprite_is_crisp(
    input: &Image,
    s: &Image,
    q: &Image,
    c: &Image,
    b: &Image,
    out: &Image,
    style: EmojiStyle,
)
    requires
        input.wf(),
        finished_from(input, s, q, c, b, out, style),
    ensures
        is_snapped(b),
        is_snapped(out),
{
    lemma_snapped_from_is_snapped(input, s);
    lemma_quantized_keeps_snapped(s, q, style.colors);
    lemma_recentered_keeps_snapped(q, c);
    if style.outline {
        assert forall|x: int, y: int| b.in_bounds(x, y) implies (#[trigger] b.pixel(x, y) == clear()
            || b.pixel(x, y).a == 255) by {
            if opaque_at(c, x - 1, y - 1) {
                assert(c.pixel(x - 1, y - 1).a == 255);
            }
        }
    } else {
        assert forall|x: int, y: int| b.in_bounds(x, y) implies (#[trigger] b.pixel(x, y) == clear()
            || b.pixel(x, y).a == 255) by {
            assert(c.pixel(x, y) == b.pixel(x, y));
        }
    }
    if style.zoom <= 1 {
        assert forall|x: int, y: int| out.in_bounds(x, y) implies (#[trigger] out.pixel(x, y)
            == clear() || out.pixel(x, y).a == 255) by {
            assert(b.pixel(x, y) == out.pixel(x, y));
        }
    } else {
        assert forall|x: int, y: int| out.in_bounds(x, y) implies (#[trigger] out.pixel(x, y)
            == clear() || out.pixel(x, y).a == 255) by {
            assert(b.w() > 0 && b.h() > 0) by (nonlinear_arith)
                requires
                    out.w() == b.w() * style.zoom,
                    out.h() == b.h() * style.zoom,
                    0 <= x < out.w(),
                    0 <= y < out.h(),
            ;
            let (sx, sy) = choose|sx: int, sy: int| b.in_bounds(sx, sy) && out.pixel(x, y) == b.pixel(sx, sy);
            assert(b.pixel(sx, sy) == clear() || b.pixel(sx, sy).a == 255);
        }
    }
}

proof fn lemma_pixel_is_pix(img: &Image, x: int, y: int)
    requires
        img.wf(),
        img.in_bounds(x, y),
    ensures
        img.pixel(x, y) == pix(img.bytes(), y * img.w() + x),
        0 <= y * img.w() + x < img.count(),
{
    crate::raster::lemma_offset_bounds(img.w() as int, img.h() as int, x, y);
}

proof fn lemma_snapped_from_is_snapped(a: &Image, s: &Image)
    requires
        a.wf(),
        snapped_from(a, s),
    ensures
        is_snapped(s),
{
    assert forall|x: int, y: int| s.in_bounds(x, y) implies (#[trigger] s.pixel(x, y) == clear()
        || s.pixel(x, y).a == 255) by {
        lemma_pixel_is_pix(s, x, y);
        let p = y * s.w() + x;
        assert(pix(s.bytes(), p) == snap_pixel(pix(a.bytes(), p)));
    }
}

proof fn lemma_quantized_keeps_snapped(s: &Image, q: &Image, colors: u32)
    requires
        s.wf(),
        is_snapped(s),
        quantized_from(s, q, colors),
    ensures
        is_snapped(q),
{
    let cs = opaque_colors(s.bytes(), s.count() as int);
    assert forall|x: int, y: int| q.in_bounds(x, y) implies (#[trigger] q.pixel(x, y) == clear()
        || q.pixel(x, y).a == 255) by {
        lemma_pixel_is_pix(q, x, y);
        lemma_pixel_is_pix(s, x, y);
        assert(s.pixel(x, y) == clear() || s.pixel(x, y).a == 255);
        if !(colors == 0 || cs.len() == 0) {
            let p = y * s.w() + x;
            assert(pix(q.bytes(), p) == recolor(pix(s.bytes(), p), spec_palette(cs, colors as int)));
        }
    }
}

proof fn lemma_recentered_keeps_snapped(q: &Image, c: &Image)
    requires
        q.wf(),
        is_snapped(q),
        recentered(q, c),
    ensures
        is_snapped(c),
{
    if !has_opaque(q) {
        assert forall|x: int, y: int| c.in_bounds(x, y) implies (#[trigger] c.pixel(x, y) == clear()
            || c.pixel(x, y).a == 255) by {
            assert(q.pixel(x, y) == c.pixel(x, y));
        }
    } else {
        let (x0, y0, x1, y1) = choose|x0: int, y0: int, x1: int, y1: int|
            is_content_box(q, x0, y0, x1, y1);
        assert(is_content_box(q, x0, y0, x1, y1));
        let ya = choose|y: int| opaque_at(q, x0, y);
        let yb = choose|y: int| opaque_at(q, x1, y);
        let xa = choose|x: int| opaque_at(q, x, y0);
        let xb = choose|x: int| opaque_at(q, x, y1);
        assert(opaque_at(q, x0, ya) && opaque_at(q, x1, yb) && opaque_at(q, xa, y0) && opaque_at(q, xb, y1));
        let (tx, ty) = center_target(q.w() as int, q.h() as int, x0, y0, x1, y1);
        if tx == x0 && ty == y0 {
            assert forall|x: int, y: int| c.in_bounds(x, y) implies (#[trigger] c.pixel(x, y)
                == clear() || c.pixel(x, y).a == 255) by {
                assert(q.pixel(x, y) == c.pixel(x, y));
            }
        } else {
            assert(moved_content(q, c, x0, y0, x1, y1));
            assert forall|x: int, y: int| c.in_bounds(x, y) implies (#[trigger] c.pixel(x, y)
                == clear() || c.pixel(x, y).a == 255) by {
                if tx <= x < tx + (x1 - x0 + 1) && ty <= y < ty + (y1 - y0 + 1) {
                    assert(q.in_bounds(x - tx + x0, y - ty + y0));
                    let sp = q.pixel(x - tx + x0, y - ty + y0);
                    assert(sp == clear() || sp.a == 255);
                }
            }
        }
    }
}


/// Re-centering settles: once a crisp frame has been re-centered, doing it
/// again leaves it as it is.
pub proof fn lemma_recenter_is_stable(img: &Image, out: &Image, again: &Image)
    requires
        img.wf(),
        is_snapped(img),
        recentered(img, out),
        recentered(out, again),
    ensures
        again.bytes() == out.bytes(),
{
    if !has_opaque(img) {
        assert(out.bytes() == img.bytes());
        if has_opaque(out) {
            let (x, y) = choose|x: int, y: int| opaque_at(out, x, y);
            assert(img.pixel(x, y) == out.pixel(x, y));
            assert(opaque_at(img, x, y));
        }
    } else {
        let (x0, y0, x1, y1) = choose|x0: int, y0: int, x1: int, y1: int|
            is_content_box(img, x0, y0, x1, y1);
        assert(is_content_box(img, x0, y0, x1, y1));
        let ya = choose|y: int| opaque_at(img, x0, y);
        let yb = choose|y: int| opaque_at(img, x1, y);
        let xa = choose|x: int| opaque_at(img, x, y0);
        let xb = choose|x: int| opaque_at(img, x, y1);
        assert(opaque_at(img, x0, ya) && opaque_at(img, x1, yb) && opaque_at(img, xa, y0) && opaque_at(img, xb, y1));
        let (tx, ty) = center_target(img.w() as int, img.h() as int, x0, y0, x1, y1);
        if tx == x0 && ty == y0 {
            assert(out.bytes() == img.bytes());
            assert forall|x: int, y: int| opaque_at(out, x, y) <==> opaque_at(img, x, y) by {
                assert(out.pixel(x, y) == img.pixel(x, y));
            }
            assert(is_content_box(out, x0, y0, x1, y1));
        } else {
            assert(moved_content(img, out, x0, y0, x1, y1));
            let (u0, v0, u1, v1) = (tx, ty, tx + (x1 - x0), ty + (y1 - y0));
            assert forall|x: int, y: int| opaque_at(out, x, y) implies u0 <= x <= u1 && v0 <= y <= v1 by {
                assert(out.in_bounds(x, y));
            }
            assert(opaque_at(img, x0, ya) && img.pixel(x0, ya).a == 255);
            assert(out.pixel(u0, ya - y0 + v0) == img.pixel(x0, ya));
            assert(opaque_at(out, u0, ya - y0 + v0));
            assert(opaque_at(img, x1, yb) && img.pixel(x1, yb).a == 255);
            assert(out.pixel(u1, yb - y0 + v0) == img.pixel(x1, yb));
            assert(opaque_at(out, u1, yb - y0 + v0));
            assert(opaque_at(img, xa, y0) && img.pixel(xa, y0).a == 255);
            assert(out.pixel(xa - x0 + u0, v0) == img.pixel(xa, y0));
            assert(opaque_at(out, xa - x0 + u0, v0));
            assert(opaque_at(img, xb, y1) && img.pixel(xb, y1).a == 255);
            assert(out.pixel(xb - x0 + u0, v1) == img.pixel(xb, y1));
            assert(opaque_at(out, xb - x0 + u0, v1));
            assert(is_content_box(out, u0, v0, u1, v1));
            assert(center_target(out.w() as int, out.h() as int, u0, v0, u1, v1) == (u0, v0));
        }
    }
}

} // verus!
