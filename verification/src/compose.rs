//! Laying emoji and text out into a logo, and drawing the domino tile.

use vstd::prelude::*;

use crate::raster::{clear, overlaid, overlay, overlay_result, resize, zeros, Image, ResizeFilter, Rgba};

verus! {

/// Options for the domino-style badge that houses the emoji.
#[derive(Clone, Copy, Debug)]
pub struct BadgeStyle {
    /// Tile fill color.
    pub fill: [u8; 3],
}

/// An opaque pixel of the given color.
pub open spec fn spec_rgb(c: [u8; 3]) -> Rgba {
    Rgba { r: c[0], g: c[1], b: c[2], a: 255 }
}

pub fn rgb(c: [u8; 3]) -> (p: Rgba)
    ensures
        p == spec_rgb(c),
{
    Rgba { r: c[0], g: c[1], b: c[2], a: 255 }
}

pub open spec fn clamp(v: int, lo: int, hi: int) -> int {
    if v < lo {
        lo
    } else if v > hi {
        hi
    } else {
        v
    }
}

/// The corner radius actually used: at most half of either side.
pub open spec fn rounded_radius(x0: int, y0: int, x1: int, y1: int, r: int) -> int {
    let a = if r < (x1 - x0) / 2 {
        r
    } else {
        (x1 - x0) / 2
    };
    if a < (y1 - y0) / 2 {
        a
    } else {
        (y1 - y0) / 2
    }
}

/// (x, y) lies in the rounded rectangle [x0, x1] x [y0, y1] with corner radius
/// `r`: its distance to the rectangle deflated by the radius is at most the
/// radius.
pub open spec fn in_rounded(x: int, y: int, x0: int, y0: int, x1: int, y1: int, r: int) -> bool {
    let rr = rounded_radius(x0, y0, x1, y1, r);
    let dx = x - clamp(x, x0 + rr, x1 - rr);
    let dy = y - clamp(y, y0 + rr, y1 - rr);
    x0 < x1 && y0 < y1 && x0 <= x <= x1 && y0 <= y <= y1 && dx * dx + dy * dy <= rr * rr
}

/// Fill a crisp rounded rectangle.
pub fn fill_rounded(img: &mut Image, x0: u32, y0: u32, x1: u32, y1: u32, r: u32, color: Rgba)
    requires
        old(img).wf(),
        x1 > x0 && y1 > y0 ==> old(img).w() >= 1 && old(img).h() >= 1,
    ensures
        final(img).wf(),
        final(img).w() == old(img).w(),
        final(img).h() == old(img).h(),
        forall|x: int, y: int|
            #![trigger final(img).pixel(x, y)]
            old(img).in_bounds(x, y) ==> final(img).pixel(x, y) == if in_rounded(
                x,
                y,
                x0 as int,
                y0 as int,
                x1 as int,
                y1 as int,
                r as int,
            ) {
                color
            } else {
                old(img).pixel(x, y)
            },
{
    if x1 <= x0 || y1 <= y0 {
        return;
    }
    let ghost rr = rounded_radius(x0 as int, y0 as int, x1 as int, y1 as int, r as int);
    let r1 = if r < (x1 - x0) / 2 { r } else { (x1 - x0) / 2 };
    let r2 = if r1 < (y1 - y0) / 2 { r1 } else { (y1 - y0) / 2 };
    let r = r2 as i64;
    let ix0 = x0 as i64 + r;
    let iy0 = y0 as i64 + r;
    let ix1 = x1 as i64 - r;
    let iy1 = y1 as i64 - r;
    let ymax = if y1 < img.height() - 1 { y1 } else { img.height() - 1 };
    let xmax = if x1 < img.width() - 1 { x1 } else { img.width() - 1 };
    let ghost start = *img;
    if y0 > ymax || x0 > xmax {
        assert forall|x: int, yy: int| #![trigger img.pixel(x, yy)] start.in_bounds(x, yy) implies !in_rounded(
            x,
            yy,
            x0 as int,
            y0 as int,
            x1 as int,
            y1 as int,
            r as int,
        ) by {}
        return;
    }
    let mut y: u64 = y0 as u64;
    while y <= ymax as u64
        invariant
            start.wf(),
            img.wf(),
            img.w() == start.w(),
            img.h() == start.h(),
            x0 < x1,
            y0 < y1,
            r == rr,
            0 <= rr <= (x1 - x0) / 2,
            rr <= (y1 - y0) / 2,
            rr <= 0x7FFF_FFFF,
            ix0 == x0 + r,
            iy0 == y0 + r,
            ix1 == x1 - r,
            iy1 == y1 - r,
            ymax < start.h(),
            xmax < start.w(),
            xmax == x1 || xmax + 1 == start.w(),
            ymax == y1 || ymax + 1 == start.h(),
            ymax <= y1,
            xmax <= x1,
            x0 <= xmax,
            y0 <= y,
            y <= ymax + 1,
            forall|x: int, yy: int|
                #![trigger img.pixel(x, yy)]
                start.in_bounds(x, yy) ==> img.pixel(x, yy) == if yy < y && in_rounded(
                    x,
                    yy,
                    x0 as int,
                    y0 as int,
                    x1 as int,
                    y1 as int,
                    rr,
                ) {
                    color
                } else {
                    start.pixel(x, yy)
                },
        decreases ymax + 1 - y,
    {
        let mut x: u64 = x0 as u64;
        while x <= xmax as u64
            invariant
                start.wf(),
                img.wf(),
                img.w() == start.w(),
                img.h() == start.h(),
                x0 < x1,
                y0 < y1,
                r == rr,
                0 <= rr <= (x1 - x0) / 2,
                rr <= (y1 - y0) / 2,
                rr <= 0x7FFF_FFFF,
                ix0 == x0 + r,
                iy0 == y0 + r,
                ix1 == x1 - r,
                iy1 == y1 - r,
                ymax < start.h(),
                xmax < start.w(),
                xmax == x1 || xmax + 1 == start.w(),
                ymax == y1 || ymax + 1 == start.h(),
            xmax == x1 || xmax + 1 == start.w(),
            ymax == y1 || ymax + 1 == start.h(),
                xmax <= x1,
                ymax <= y1,
                y0 <= y <= ymax,
                x0 <= x,
                x <= xmax + 1,
                forall|xx: int, yy: int|
                    #![trigger img.pixel(xx, yy)]
                    start.in_bounds(xx, yy) ==> img.pixel(xx, yy) == if (yy < y || (yy == y && xx
                        < x)) && in_rounded(xx, yy, x0 as int, y0 as int, x1 as int, y1 as int, rr) {
                        color
                    } else {
                        start.pixel(xx, yy)
                    },
            decreases xmax + 1 - x,
        {
            let xi = x as i64;
            let yi = y as i64;
            let cx = if xi < ix0 { ix0 } else if xi > ix1 { ix1 } else { xi };
            let cy = if yi < iy0 { iy0 } else if yi > iy1 { iy1 } else { yi };
            let dx = xi - cx;
            let dy = yi - cy;
            assert(-r <= dx <= r && -r <= dy <= r);
            assert(0 <= dx * dx <= r * r && 0 <= dy * dy <= r * r && r * r <= 0x3FFF_FFFF_0000_0001)
                by (nonlinear_arith)
                requires
                    -r <= dx <= r,
                    -r <= dy <= r,
                    0 <= r <= 0x7FFF_FFFF,
            ;
            if dx * dx + dy * dy <= r * r {
                img.put_pixel(x as u32, y as u32, color);
            }
            x += 1;
        }
        y += 1;
    }
}

/// Left edge of the `i`-th image in a row laid out left to right with
/// `padding` after each image.
pub open spec fn x_offset(imgs: Seq<Image>, padding: int, i: int) -> int
    decreases i,
{
    if i <= 0 {
        0
    } else {
        x_offset(imgs, padding, i - 1) + imgs[i - 1].w() + padding
    }
}

/// The tallest height among the images (0 for none).
pub open spec fn max_height(imgs: Seq<Image>) -> nat
    decreases imgs.len(),
{
    if imgs.len() == 0 {
        0
    } else {
        let m = max_height(imgs.drop_last());
        if imgs.last().h() > m {
            imgs.last().h()
        } else {
            m
        }
    }
}

/// Top edge that centers an image of height `h` in a row of height `total`.
pub open spec fn center_offset(total: int, h: int) -> int {
    (total - h) / 2
}

/// `img` is drawn on `canvas` with its top-left corner at (ox, oy): its opaque
/// pixels appear unchanged and its transparent ones leave the canvas
/// transparent.
pub open spec fn placed_at(canvas: &Image, img: &Image, ox: int, oy: int) -> bool {
    forall|u: int, v: int|
        #![trigger img.pixel(u, v)]
        img.in_bounds(u, v) ==> (img.pixel(u, v).a == 255 ==> canvas.pixel(ox + u, oy + v)
            == img.pixel(u, v)) && (img.pixel(u, v).a == 0 ==> canvas.pixel(ox + u, oy + v)
            == clear())
}

pub open spec fn in_rect(x: int, y: int, ox: int, oy: int, w: int, h: int) -> bool {
    ox <= x < ox + w && oy <= y < oy + h
}

/// An image drawn where nothing else covers it stays in place.
pub proof fn lemma_keep_placed(
    before: &Image,
    after: &Image,
    top: &Image,
    tx: int,
    ty: int,
    img: &Image,
    ox: int,
    oy: int,
)
    requires
        overlaid(before, after, top, tx, ty),
        placed_at(before, img, ox, oy),
        0 <= ox,
        0 <= oy,
        ox + img.w() <= before.w(),
        oy + img.h() <= before.h(),
        ox + img.w() <= tx || tx + top.w() <= ox || oy + img.h() <= ty || ty + top.h() <= oy,
    ensures
        placed_at(after, img, ox, oy),
{
    assert forall|u: int, v: int| #![trigger img.pixel(u, v)] img.in_bounds(u, v) implies (img.pixel(
        u,
        v,
    ).a == 255 ==> after.pixel(ox + u, oy + v) == img.pixel(u, v)) && (img.pixel(u, v).a == 0
        ==> after.pixel(ox + u, oy + v) == clear()) by {
        assert(before.in_bounds(ox + u, oy + v));
        assert(!top.in_bounds(ox + u - tx, oy + v - ty));
        assert(after.pixel(ox + u, oy + v) == before.pixel(ox + u, oy + v));
    }
}

/// An image drawn over a transparent region is placed there.
pub proof fn lemma_place(before: &Image, after: &Image, top: &Image, tx: int, ty: int)
    requires
        overlaid(before, after, top, tx, ty),
        0 <= tx,
        0 <= ty,
        tx + top.w() <= before.w(),
        ty + top.h() <= before.h(),
        forall|x: int, y: int|
            in_rect(x, y, tx, ty, top.w() as int, top.h() as int) ==> #[trigger] before.pixel(x, y)
                == clear(),
    ensures
        placed_at(after, top, tx, ty),
{
    assert forall|u: int, v: int| #![trigger top.pixel(u, v)] top.in_bounds(u, v) implies (top.pixel(
        u,
        v,
    ).a == 255 ==> after.pixel(tx + u, ty + v) == top.pixel(u, v)) && (top.pixel(u, v).a == 0
        ==> after.pixel(tx + u, ty + v) == clear()) by {
        assert(before.in_bounds(tx + u, ty + v));
        assert(in_rect(tx + u, ty + v, tx, ty, top.w() as int, top.h() as int));
        assert(before.pixel(tx + u, ty + v) == clear());
    }
}

/// (x, y) falls inside the rectangle of one of the first `i` images of a row
/// of height `total`.
pub open spec fn covered_by_row(imgs: Seq<Image>, padding: int, total: int, i: int, x: int, y: int) -> bool
    decreases i,
{
    if i <= 0 {
        false
    } else {
        let ox = x_offset(imgs, padding, i - 1);
        let oy = center_offset(total, imgs[i - 1].h() as int);
        covered_by_row(imgs, padding, total, i - 1, x, y) || (ox <= x < ox + imgs[i - 1].w() && oy
            <= y < oy + imgs[i - 1].h())
    }
}

pub proof fn lemma_x_offset_monotone(imgs: Seq<Image>, padding: int, i: int, j: int)
    requires
        padding >= 0,
        0 <= i <= j <= imgs.len(),
    ensures
        x_offset(imgs, padding, i) <= x_offset(imgs, padding, j),
        i < j ==> x_offset(imgs, padding, i) + imgs[i].w() <= x_offset(imgs, padding, j),
    decreases j - i,
{
    if i < j {
        lemma_x_offset_monotone(imgs, padding, i + 1, j);
    }
}

pub proof fn lemma_max_height(imgs: Seq<Image>)
    ensures
        forall|i: int| 0 <= i < imgs.len() ==> #[trigger] imgs[i].h() <= max_height(imgs),
        imgs.len() > 0 ==> exists|i: int| 0 <= i < imgs.len() && #[trigger] imgs[i].h() == max_height(imgs),
    decreases imgs.len(),
{
    if imgs.len() > 0 {
        let d = imgs.drop_last();
        lemma_max_height(d);
        assert forall|i: int| 0 <= i < imgs.len() implies #[trigger] imgs[i].h() <= max_height(imgs) by {
            if i < d.len() {
                assert(d[i] == imgs[i]);
            }
        }
        if imgs.last().h() > max_height(d) || d.len() == 0 {
            assert(imgs[imgs.len() - 1].h() == max_height(imgs));
        } else {
            let k = choose|i: int| 0 <= i < d.len() && #[trigger] d[i].h() == max_height(d);
            assert(imgs[k] == d[k]);
        }
    }
}

/// The gap before the text: the padding after the last emoji, none when the
/// row holds no emoji.
pub open spec fn text_gap(imgs: Seq<Image>, padding: int) -> int {
    if imgs.len() == 0 {
        0
    } else {
        padding
    }
}

/// Width of the row [emoji1][padding]...[emojiN][padding][text]: padding
/// only between neighbours.
pub open spec fn row_width(imgs: Seq<Image>, text: Option<&Image>, padding: int) -> int {
    let xe = x_offset(imgs, padding, imgs.len() as int);
    (if imgs.len() == 0 {
        0
    } else {
        xe - padding
    }) + match text {
        Some(t) => text_gap(imgs, padding) + t.w(),
        None => 0,
    }
}

/// Height of the row: the tallest emoji or the text.
pub open spec fn row_height(imgs: Seq<Image>, text: Option<&Image>) -> int {
    let th = match text {
        Some(t) => t.h() as int,
        None => 0,
    };
    if max_height(imgs) >= th {
        max_height(imgs) as int
    } else {
        th
    }
}

/// The bytes of a transparent `w` x `h` canvas after the first `k` images of
/// a row of height `total` are drawn on it with `image`'s overlay.
pub open spec fn row_bytes(w: nat, h: nat, imgs: Seq<Image>, padding: int, total: int, k: int) -> Seq<u8>
    decreases k,
{
    if k <= 0 {
        zeros(w * h * 4)
    } else {
        overlay_result(
            w,
            h,
            row_bytes(w, h, imgs, padding, total, k - 1),
            imgs[k - 1].w(),
            imgs[k - 1].h(),
            imgs[k - 1].bytes(),
            x_offset(imgs, padding, k - 1),
            center_offset(total, imgs[k - 1].h() as int),
        )
    }
}

/// The layout sizes `compose_horizontal` must be able to compute in `u32`
/// (the pen after the last emoji, and the total width) and allocate.
pub open spec fn row_fits(imgs: Seq<Image>, text: Option<&Image>, padding: int) -> bool {
    let w = row_width(imgs, text, padding);
    let h = row_height(imgs, text);
    &&& x_offset(imgs, padding, imgs.len() as int) <= u32::MAX
    &&& w <= u32::MAX
    &&& (if w > 1 {
        w
    } else {
        1
    }) * (if h > 1 {
        h
    } else {
        1
    }) * 4 <= usize::MAX
}

/// Whether `compose_horizontal` can take this row.
pub fn row_fits_check(emojis: &Vec<Image>, text: Option<&Image>, padding: u32) -> (b: bool)
    ensures
        b == row_fits(emojis@, text, padding as int),
{
    let ghost imgs = emojis@;
    let ghost n = imgs.len() as int;
    let p = padding as u128;
    let mut xe: u128 = 0;
    let mut mh: u32 = 0;
    let mut i: usize = 0;
    while i < emojis.len()
        invariant
            imgs == emojis@,
            n == imgs.len(),
            i <= n,
            p == padding,
            padding >= 0,
            xe == x_offset(imgs, padding as int, i as int),
            xe <= i * 0x2_0000_0000,
            mh == max_height(imgs.take(i as int)),
        decreases n - i,
    {
        proof {
            let t = imgs.take(i + 1);
            assert(t.drop_last() == imgs.take(i as int));
            assert(t.last() == imgs[i as int]);
            assert(i * 0x2_0000_0000 + 0x2_0000_0000 <= 0x1_0000_0000_0000_0000 * 0x2_0000_0000);
        }
        let e = &emojis[i];
        xe = xe + e.width() as u128 + p;
        if e.height() > mh {
            mh = e.height();
        }
        i += 1;
    }
    assert(imgs.take(n) == imgs);
    proof {
        if n > 0 {
            lemma_x_offset_monotone(imgs, padding as int, 1, n);
            assert(x_offset(imgs, padding as int, 1) == x_offset(imgs, padding as int, 0) + imgs[0].w()
                + padding);
        }
    }
    if xe > u32::MAX as u128 {
        return false;
    }
    let gap: u128 = if emojis.len() == 0 { 0 } else { p };
    let ew: u128 = if emojis.len() == 0 { 0 } else { xe - p };
    let w: u128 = match text {
        Some(t) => ew + gap + t.width() as u128,
        None => ew,
    };
    let th: u32 = match text {
        Some(t) => t.height(),
        None => 0,
    };
    let h: u128 = if mh >= th { mh as u128 } else { th as u128 };
    if w > u32::MAX as u128 {
        return false;
    }
    let w1: u128 = if w > 1 { w } else { 1 };
    let h1: u128 = if h > 1 { h } else { 1 };
    assert(w1 * h1 * 4 <= 0x1_0000_0000 * 0x1_0000_0000 * 4) by (nonlinear_arith)
        requires
            w1 <= u32::MAX,
            h1 <= u32::MAX,
    ;
    w1 * h1 * 4 <= usize::MAX as u128
}

/// Compose emoji images and text into a single horizontal logo:
/// [emoji1][padding][emoji2][padding]...[text], all vertically centered.
pub fn compose_horizontal(emojis: &Vec<Image>, text: Option<&Image>, padding: u32) -> (canvas: Image)
    requires
        forall|i: int| 0 <= i < emojis@.len() ==> (#[trigger] emojis@[i]).wf(),
        text matches Some(t) ==> t.wf(),
        row_fits(emojis@, text, padding as int),
    ensures
        canvas.wf(),
        ({
            let imgs = emojis@;
            let n = imgs.len() as int;
            let xe = x_offset(imgs, padding as int, n);
            let total_w = row_width(imgs, text, padding as int);
            let total_h = row_height(imgs, text);
            let cw = if total_w > 1 {
                total_w
            } else {
                1
            };
            let ch = if total_h > 1 {
                total_h
            } else {
                1
            };
            &&& canvas.w() == cw
            &&& canvas.h() == ch
            &&& canvas.bytes() == match text {
                Some(t) => overlay_result(
                    cw as nat,
                    ch as nat,
                    row_bytes(cw as nat, ch as nat, imgs, padding as int, total_h, n),
                    t.w(),
                    t.h(),
                    t.bytes(),
                    xe,
                    center_offset(total_h, t.h() as int),
                ),
                None => row_bytes(cw as nat, ch as nat, imgs, padding as int, total_h, n),
            }
            &&& forall|i: int|
                0 <= i < n ==> placed_at(
                    &canvas,
                    &imgs[i],
                    x_offset(imgs, padding as int, i),
                    center_offset(total_h, imgs[i].h() as int),
                )
            &&& text matches Some(t) ==> placed_at(&canvas, t, xe, center_offset(total_h, t.h() as int))
            &&& forall|x: int, y: int|
                #![trigger canvas.pixel(x, y)]
                canvas.in_bounds(x, y) && !covered_by_row(imgs, padding as int, total_h, n, x, y) && !(
                text matches Some(t) && xe <= x < xe + t.w() && center_offset(total_h, t.h() as int)
                    <= y < center_offset(total_h, t.h() as int) + t.h()) ==> canvas.pixel(x, y)
                    == clear()
        }),
{
    let ghost imgs = emojis@;
    let ghost n = imgs.len() as int;
    let (sum_wp, max_h) = row_extent(emojis, text, padding);
    proof {
        lemma_max_height(imgs);
        lemma_x_offset_monotone(imgs, padding as int, 0, n);
        if n > 0 {
            lemma_x_offset_monotone(imgs, padding as int, 1, n);
        }
    }
    // The emoji run: all widths plus the gaps between them.
    let emoji_total_width = if emojis.len() == 0 { 0 } else { sum_wp - padding };
    let gap = if emojis.len() == 0 { 0 } else { padding };
    let text_width = match text {
        Some(t) => t.width() + gap,
        None => 0,
    };
    let total_width = emoji_total_width + text_width;
    let text_height = match text {
        Some(t) => t.height(),
        None => 0,
    };
    let total_height = if max_h >= text_height { max_h } else { text_height };
    let cw = if total_width > 1 { total_width } else { 1 };
    let ch = if total_height > 1 { total_height } else { 1 };
    let mut canvas = Image::new(cw, ch);
    let ghost th = total_height as int;

    // Place emojis
    let mut x: u32 = 0;
    let mut k: usize = 0;
    while k < emojis.len()
        invariant
            imgs == emojis@,
            n == imgs.len(),
            k <= n,
            forall|j: int| 0 <= j < n ==> (#[trigger] imgs[j]).wf(),
            forall|j: int| 0 <= j < n ==> #[trigger] imgs[j].h() <= total_height,
            th == total_height,
            padding >= 0,
            x == x_offset(imgs, padding as int, k as int),
            n > 0 ==> x_offset(imgs, padding as int, n) == emoji_total_width + padding,
            x_offset(imgs, padding as int, n) <= u32::MAX,
            total_width == emoji_total_width + text_width,
            canvas.wf(),
            canvas.w() == cw,
            canvas.h() == ch,
            canvas.bytes() == row_bytes(cw as nat, ch as nat, imgs, padding as int, th, k as int),
            total_height <= ch,
            total_width <= cw,
            forall|j: int|
                0 <= j < k ==> placed_at(
                    &canvas,
                    &imgs[j],
                    x_offset(imgs, padding as int, j),
                    center_offset(th, imgs[j].h() as int),
                ),
            forall|xx: int, yy: int|
                #![trigger canvas.pixel(xx, yy)]
                canvas.in_bounds(xx, yy) && (xx >= x || !covered_by_row(imgs, padding as int, th, k as int, xx, yy))
                    ==> canvas.pixel(xx, yy) == clear(),
        decreases n - k,
    {
        let e = &emojis[k];
        proof {
            lemma_x_offset_monotone(imgs, padding as int, k + 1, n);
        }
        let y = (total_height - e.height()) / 2;
        let ghost before = canvas;
        overlay(&mut canvas, e, x as i64, y as i64);
        proof {
            assert(imgs[k as int].h() <= total_height);
            assert(e.h() == imgs[k as int].h());
            place_step(imgs, padding as int, th, k as int, &before, &canvas);
        }
        x = x + e.width() + padding;
        k += 1;
    }

    // Place text
    if let Some(text_img) = text {
        let y = (total_height - text_img.height()) / 2;
        let ghost before = canvas;
        overlay(&mut canvas, text_img, x as i64, y as i64);
        proof {
            assert forall|j: int| 0 <= j < n implies placed_at(
                &canvas,
                &imgs[j],
                x_offset(imgs, padding as int, j),
                center_offset(th, imgs[j].h() as int),
            ) by {
                lemma_x_offset_monotone(imgs, padding as int, j + 1, n);
                lemma_x_offset_monotone(imgs, padding as int, 0, j);
                lemma_keep_placed(
                    &before,
                    &canvas,
                    text_img,
                    x as int,
                    y as int,
                    &imgs[j],
                    x_offset(imgs, padding as int, j),
                    center_offset(th, imgs[j].h() as int),
                );
            }
            assert forall|xx: int, yy: int|
                in_rect(xx, yy, x as int, y as int, text_img.w() as int, text_img.h() as int)
                implies #[trigger] before.pixel(xx, yy) == clear() by {
                assert(before.in_bounds(xx, yy));
            }
            lemma_place(&before, &canvas, text_img, x as int, y as int);
        }
    }
    canvas
}

/// Total of the emoji widths each followed by `padding`, and the tallest emoji.
fn row_extent(emojis: &Vec<Image>, text: Option<&Image>, padding: u32) -> (r: (u32, u32))
    requires
        row_fits(emojis@, text, padding as int),
    ensures
        r.0 == x_offset(emojis@, padding as int, emojis@.len() as int),
        r.1 == max_height(emojis@),
{
    let ghost imgs = emojis@;
    let ghost n = imgs.len() as int;
    let mut sum_wp: u32 = 0;
    let mut max_h: u32 = 0;
    let mut i: usize = 0;
    while i < emojis.len()
        invariant
            imgs == emojis@,
            n == imgs.len(),
            i <= n,
            row_fits(imgs, text, padding as int),
            sum_wp == x_offset(imgs, padding as int, i as int),
            max_h == max_height(imgs.take(i as int)),
        decreases n - i,
    {
        proof {
            lemma_x_offset_monotone(imgs, padding as int, i + 1, n);
            let t = imgs.take(i + 1);
            assert(t.drop_last() == imgs.take(i as int));
            assert(t.last() == imgs[i as int]);
        }
        let e = &emojis[i];
        sum_wp = sum_wp + e.width() + padding;
        if e.height() > max_h {
            max_h = e.height();
        }
        i += 1;
    }
    assert(imgs.take(n) == imgs);
    (sum_wp, max_h)
}

/// Drawing the `k`-th image of a row keeps the earlier ones in place, places
/// it, and leaves everything to its right transparent.
proof fn place_step(imgs: Seq<Image>, padding: int, th: int, k: int, before: &Image, after: &Image)
    requires
        0 <= k < imgs.len(),
        padding >= 0,
        imgs[k].wf(),
        imgs[k].h() <= th,
        0 <= th <= before.h(),
        x_offset(imgs, padding, k) + imgs[k].w() <= before.w(),
        overlaid(before, after, &imgs[k], x_offset(imgs, padding, k), center_offset(th, imgs[k].h() as int)),
        forall|j: int|
            0 <= j < k ==> placed_at(before, &imgs[j], x_offset(imgs, padding, j), center_offset(th, imgs[j].h() as int)),
        forall|j: int| 0 <= j < imgs.len() ==> #[trigger] imgs[j].h() <= th,
        forall|xx: int, yy: int|
            #![trigger before.pixel(xx, yy)]
            before.in_bounds(xx, yy) && (xx >= x_offset(imgs, padding, k) || !covered_by_row(imgs, padding, th, k, xx, yy))
                ==> before.pixel(xx, yy) == clear(),
    ensures
        forall|j: int|
            0 <= j < k + 1 ==> placed_at(after, &imgs[j], x_offset(imgs, padding, j), center_offset(th, imgs[j].h() as int)),
        forall|xx: int, yy: int|
            #![trigger after.pixel(xx, yy)]
            after.in_bounds(xx, yy) && (xx >= x_offset(imgs, padding, k + 1) || !covered_by_row(imgs, padding, th, k + 1, xx, yy))
                ==> after.pixel(xx, yy) == clear(),
{
    let x = x_offset(imgs, padding, k);
    let e = imgs[k];
    let y = center_offset(th, e.h() as int);
    lemma_x_offset_monotone(imgs, padding, 0, k);
    assert forall|j: int|
        0 <= j < k + 1 implies placed_at(after, &imgs[j], x_offset(imgs, padding, j), center_offset(th, imgs[j].h() as int)) by {
        if j < k {
            lemma_x_offset_monotone(imgs, padding, j, k);
            lemma_x_offset_monotone(imgs, padding, 0, j);
            lemma_keep_placed(before, after, &e, x, y, &imgs[j], x_offset(imgs, padding, j), center_offset(th, imgs[j].h() as int));
        } else {
            assert forall|xx: int, yy: int| in_rect(xx, yy, x, y, e.w() as int, e.h() as int)
                implies #[trigger] before.pixel(xx, yy) == clear() by {
                assert(before.in_bounds(xx, yy));
            }
            lemma_place(before, after, &e, x, y);
        }
    }
    assert forall|xx: int, yy: int|
        #![trigger after.pixel(xx, yy)]
        after.in_bounds(xx, yy) && (xx >= x_offset(imgs, padding, k + 1) || !covered_by_row(imgs, padding, th, k + 1, xx, yy))
            implies after.pixel(xx, yy) == clear() by {
        if in_rect(xx, yy, x, y, e.w() as int, e.h() as int) {
            assert(covered_by_row(imgs, padding, th, k + 1, xx, yy));
        } else {
            assert(!e.in_bounds(xx - x, yy - y));
            assert(before.pixel(xx, yy) == clear());
        }
    }
}

/// The tile's integer metrics: the cell padding, corner radius and divider
/// inset, and the divider and border colors chosen to contrast with the fill.
#[derive(Clone, Copy, Debug)]
pub struct DominoMetrics {
    pub cell_pad: u32,
    pub radius: u32,
    pub inset: u32,
    pub divider: [u8; 3],
    pub border: [u8; 3],
}

/// The side of the largest emoji (1 when there is none).
pub open spec fn emoji_extent(imgs: Seq<Image>) -> nat
    decreases imgs.len(),
{
    if imgs.len() == 0 {
        1
    } else {
        let m = if imgs.len() == 1 {
            0
        } else {
            emoji_extent(imgs.drop_last())
        };
        let e = imgs.last();
        let a = if e.w() > m {
            e.w()
        } else {
            m
        };
        if e.h() > a {
            e.h()
        } else {
            a
        }
    }
}

/// Largest emoji width or height; 1 when there are no emoji.
pub fn max_emoji_extent(emojis: &Vec<Image>) -> (m: u32)
    ensures
        m == emoji_extent(emojis@),
{
    if emojis.len() == 0 {
        return 1;
    }
    let mut m: u32 = 0;
    let mut i: usize = 0;
    while i < emojis.len()
        invariant
            0 < emojis@.len(),
            i <= emojis@.len(),
            i > 0 ==> m == emoji_extent(emojis@.take(i as int)),
            i == 0 ==> m == 0,
        decreases emojis@.len() - i,
    {
        proof {
            let t = emojis@.take(i + 1);
            assert(t.drop_last() == emojis@.take(i as int));
            assert(t.last() == emojis@[i as int]);
        }
        let e = &emojis[i];
        if e.width() > m {
            m = e.width();
        }
        if e.height() > m {
            m = e.height();
        }
        i += 1;
    }
    assert(emojis@.take(emojis@.len() as int) == emojis@);
    m
}

pub proof fn lemma_emoji_extent(imgs: Seq<Image>)
    ensures
        forall|i: int| 0 <= i < imgs.len() ==> #[trigger] imgs[i].w() <= emoji_extent(imgs) && imgs[i].h()
            <= emoji_extent(imgs),
    decreases imgs.len(),
{
    if imgs.len() > 1 {
        let d = imgs.drop_last();
        lemma_emoji_extent(d);
        assert forall|i: int| 0 <= i < imgs.len() implies #[trigger] imgs[i].w() <= emoji_extent(imgs)
            && imgs[i].h() <= emoji_extent(imgs) by {
            if i < d.len() {
                assert(d[i] == imgs[i]);
            }
        }
    }
}

/// Some divider among the first `i` cell boundaries (1 .. i) covers (x, y):
/// the boundary of cell `j` sits at `j * s4`, spans 16 supersampled pixels
/// and runs from `inset` to `hh - inset`.
pub open spec fn on_divider(x: int, y: int, s4: int, inset: int, hh: int, i: int) -> bool
    decreases i,
{
    if i <= 1 {
        false
    } else {
        on_divider(x, y, s4, inset, hh, i - 1) || in_rounded(
            x,
            y,
            (i - 1) * s4 - 8,
            inset,
            (i - 1) * s4 + 8,
            hh - inset,
            8,
        )
    }
}

/// The supersampled tile: a border-colored rounded rectangle, the fill inset
/// by 12 pixels, and the dividers on top.
pub open spec fn hires_tile_pixel(
    x: int,
    y: int,
    hw: int,
    hh: int,
    hr: int,
    s4: int,
    n: int,
    inset: int,
    fill: [u8; 3],
    m: DominoMetrics,
) -> Rgba {
    let inner_r = if hr >= 12 {
        hr - 12
    } else {
        0
    };
    if on_divider(x, y, s4, inset, hh, n) {
        spec_rgb(m.divider)
    } else if in_rounded(x, y, 12, 12, hw - 13, hh - 13, inner_r) {
        spec_rgb(fill)
    } else if in_rounded(x, y, 0, 0, hw - 1, hh - 1, hr) {
        spec_rgb(m.border)
    } else {
        clear()
    }
}

proof fn lemma_on_divider_upto(x: int, y: int, s4: int, inset: int, hh: int, i: int, k: int)
    requires
        1 <= k < i,
        in_rounded(x, y, k * s4 - 8, inset, k * s4 + 8, hh - inset, 8),
    ensures
        on_divider(x, y, s4, inset, hh, i),
    decreases i,
{
    if i - 1 > k {
        lemma_on_divider_upto(x, y, s4, inset, hh, i - 1, k);
    } else {
        assert((i - 1) * s4 == k * s4);
    }
}

/// Each divider sits on its own cell boundary: on the supersampled tile of
/// `n` cells of side `s`, the point of boundary `k` (between cells `k` and
/// `k + 1`, at x = k * s * 4) halfway down the tile has the divider color,
/// whenever the inset leaves the dividers some height.
pub proof fn lemma_divider_on_each_boundary(
    s: int,
    n: int,
    k: int,
    hr: int,
    fill: [u8; 3],
    m: DominoMetrics,
)
    requires
        s >= 4,
        1 <= k < n,
        2 * m.inset < s * 4,
    ensures
        hires_tile_pixel(k * s * 4, s * 2, s * n * 4, s * 4, hr, s * 4, n, m.inset as int, fill, m)
            == spec_rgb(m.divider),
{
    let s4 = s * 4;
    let hh = s * 4;
    let x = k * s * 4;
    let y = s * 2;
    let inset = m.inset as int;
    assert(k * s4 == x) by (nonlinear_arith)
        requires
            s4 == s * 4,
            x == k * s * 4,
    ;
    let rr = rounded_radius(x - 8, inset, x + 8, hh - inset, 8);
    let half = (hh - inset - inset) / 2;
    assert(hh == 2 * y);
    assert(half >= 0 && 2 * half <= hh - 2 * inset);
    assert(rr == if 8 < half { 8 } else { half });
    assert(0 <= rr <= 8 && 2 * rr <= hh - 2 * inset);
    assert(clamp(x, x - 8 + rr, x + 8 - rr) == x);
    assert(inset + rr <= y && y <= hh - inset - rr);
    assert(clamp(y, inset + rr, hh - inset - rr) == y);
    assert((x - x) * (x - x) + (y - y) * (y - y) == 0);
    assert(0 <= rr * rr) by (nonlinear_arith);
    assert(in_rounded(x, y, x - 8, inset, x + 8, hh - inset, 8));
    lemma_on_divider_upto(x, y, s4, inset, hh, n, k);
}

/// Draw the domino tile at four times its size, for smooth corners once
/// downscaled.
pub fn draw_domino_hires(s: u32, n: u32, fill: [u8; 3], m: DominoMetrics) -> (hi: Image)
    requires
        s >= 4,
        n >= 1,
        s * n * 4 <= u32::MAX,
        m.radius * 4 <= u32::MAX,
        m.inset <= s * 4,
        (s * n * 4) * (s * 4) * 4 <= usize::MAX,
    ensures
        hi.wf(),
        hi.w() == s * n * 4,
        hi.h() == s * 4,
        forall|x: int, y: int|
            #![trigger hi.pixel(x, y)]
            hi.in_bounds(x, y) ==> hi.pixel(x, y) == hires_tile_pixel(
                x,
                y,
                (s * n * 4) as int,
                (s * 4) as int,
                (m.radius * 4) as int,
                (s * 4) as int,
                n as int,
                m.inset as int,
                fill,
                m,
            ),
{
    assert(s * 4 <= s * n * 4 && s * n * 4 >= 16 && s * 4 >= 16 && s * n >= s) by (nonlinear_arith)
        requires
            s >= 4,
            n >= 1,
    ;
    let ss: u32 = 4;
    let w = s * n;
    let h = s;
    let hw = w * ss;
    let hh = h * ss;
    let hr = m.radius * ss;
    let bw = 3 * ss;
    let mut hi = Image::new(hw, hh);
    fill_rounded(&mut hi, 0, 0, hw - 1, hh - 1, hr, rgb(m.border));
    let inner_r = if hr >= bw { hr - bw } else { 0 };
    fill_rounded(&mut hi, bw, bw, hw - 1 - bw, hh - 1 - bw, inner_r, rgb(fill));
    let dvw: u32 = 4 * ss;
    let ghost s4 = (s * 4) as int;
    let mut i: u32 = 1;
    while i < n
        invariant
            1 <= i <= n,
            s >= 4,
            hw == s * n * 4,
            hh == s * 4,
            s * n * 4 <= u32::MAX,
            m.inset <= hh,
            dvw == 16,
            ss == 4,
            hr == m.radius * 4,
            s4 == s * 4,
            hi.wf(),
            hi.w() == hw,
            hi.h() == hh,
            forall|x: int, y: int|
                #![trigger hi.pixel(x, y)]
                hi.in_bounds(x, y) ==> hi.pixel(x, y) == hires_tile_pixel(
                    x,
                    y,
                    hw as int,
                    hh as int,
                    hr as int,
                    s4,
                    i as int,
                    m.inset as int,
                    fill,
                    m,
                ),
        decreases n - i,
    {
        assert(i * s <= s * n && (i * s) * 4 + 8 <= s * n * 4 && (i * s) * 4 >= 16 && (i * s) * 4 == (
        i as int) * s4) by (nonlinear_arith)
            requires
                1 <= i < n,
                s >= 4,
                s4 == s * 4,
        ;
        let cx = i * s * ss;
        fill_rounded(&mut hi, cx - dvw / 2, m.inset, cx + dvw / 2, hh - m.inset, dvw / 2, rgb(m.divider));
        i += 1;
    }
    hi
}

/// `img` is drawn over `base` on `canvas` at (ox, oy): opaque pixels replace
/// the base, transparent ones leave it showing.
pub open spec fn drawn_over(canvas: &Image, base: &Image, img: &Image, ox: int, oy: int) -> bool {
    forall|u: int, v: int|
        #![trigger img.pixel(u, v)]
        img.in_bounds(u, v) ==> (img.pixel(u, v).a == 255 ==> canvas.pixel(ox + u, oy + v)
            == img.pixel(u, v)) && (img.pixel(u, v).a == 0 ==> canvas.pixel(ox + u, oy + v)
            == base.pixel(ox + u, oy + v))
}

/// Drawing over a region that does not meet an earlier drawing keeps it.
pub proof fn lemma_keep_drawn(
    before: &Image,
    after: &Image,
    top: &Image,
    tx: int,
    ty: int,
    base: &Image,
    img: &Image,
    ox: int,
    oy: int,
)
    requires
        overlaid(before, after, top, tx, ty),
        drawn_over(before, base, img, ox, oy),
        0 <= ox,
        0 <= oy,
        ox + img.w() <= before.w(),
        oy + img.h() <= before.h(),
        ox + img.w() <= tx || tx + top.w() <= ox || oy + img.h() <= ty || ty + top.h() <= oy,
    ensures
        drawn_over(after, base, img, ox, oy),
{
    assert forall|u: int, v: int| #![trigger img.pixel(u, v)] img.in_bounds(u, v) implies (img.pixel(
        u,
        v,
    ).a == 255 ==> after.pixel(ox + u, oy + v) == img.pixel(u, v)) && (img.pixel(u, v).a == 0
        ==> after.pixel(ox + u, oy + v) == base.pixel(ox + u, oy + v)) by {
        assert(before.in_bounds(ox + u, oy + v));
        assert(!top.in_bounds(ox + u - tx, oy + v - ty));
        assert(after.pixel(ox + u, oy + v) == before.pixel(ox + u, oy + v));
    }
}

/// Drawing an image over a region that still shows the base.
pub proof fn lemma_draw(before: &Image, after: &Image, top: &Image, tx: int, ty: int, base: &Image)
    requires
        overlaid(before, after, top, tx, ty),
        0 <= tx,
        0 <= ty,
        tx + top.w() <= before.w(),
        ty + top.h() <= before.h(),
        forall|x: int, y: int|
            in_rect(x, y, tx, ty, top.w() as int, top.h() as int) ==> #[trigger] before.pixel(x, y)
                == base.pixel(x, y),
    ensures
        drawn_over(after, base, top, tx, ty),
{
    assert forall|u: int, v: int| #![trigger top.pixel(u, v)] top.in_bounds(u, v) implies (top.pixel(
        u,
        v,
    ).a == 255 ==> after.pixel(tx + u, ty + v) == top.pixel(u, v)) && (top.pixel(u, v).a == 0
        ==> after.pixel(tx + u, ty + v) == base.pixel(tx + u, ty + v)) by {
        assert(before.in_bounds(tx + u, ty + v));
        assert(in_rect(tx + u, ty + v, tx, ty, top.w() as int, top.h() as int));
        assert(before.pixel(tx + u, ty + v) == base.pixel(tx + u, ty + v));
    }
}

/// Left edge of emoji `i` (width `ew`) centered in its square cell of side `s`.
pub open spec fn cell_x(i: int, s: int, ew: int) -> int {
    i * s + s / 2 - ew / 2
}

/// Top edge of an emoji of height `eh` centered in a tile of height `h`.
pub open spec fn cell_y(h: int, eh: int) -> int {
    h / 2 - eh / 2
}

/// (x, y) is covered by one of the first `i` emoji in their cells.
pub open spec fn covered_by_cells(imgs: Seq<Image>, s: int, i: int, x: int, y: int) -> bool
    decreases i,
{
    if i <= 0 {
        false
    } else {
        let e = imgs[i - 1];
        covered_by_cells(imgs, s, i - 1, x, y) || in_rect(
            x,
            y,
            cell_x(i - 1, s, e.w() as int),
            cell_y(s, e.h() as int),
            e.w() as int,
            e.h() as int,
        )
    }
}

/// `hi` is the supersampled tile for `n` cells of side `s`, and `base` has
/// the size it is downscaled to with the `Lanczos3` filter. What that filter
/// gives each pixel is not stated: its kernel calls `f32::sin`, whose
/// precision std leaves open.
pub open spec fn domino_base(hi: &Image, base: &Image, s: nat, n: nat, fill: [u8; 3], m: DominoMetrics) -> bool {
    &&& hi.wf()
    &&& hi.w() == s * n * 4
    &&& hi.h() == s * 4
    &&& forall|x: int, y: int|
        #![trigger hi.pixel(x, y)]
        hi.in_bounds(x, y) ==> hi.pixel(x, y) == hires_tile_pixel(
            x,
            y,
            (s * n * 4) as int,
            (s * 4) as int,
            (m.radius * 4) as int,
            (s * 4) as int,
            n as int,
            m.inset as int,
            fill,
            m,
        )
    &&& base.wf()
    &&& base.w() == s * n
    &&& base.h() == s
}

/// The tile side for a set of emoji.
pub open spec fn domino_cell(imgs: Seq<Image>, m: DominoMetrics) -> nat {
    emoji_extent(imgs) + 2 * (m.cell_pad as nat)
}

pub open spec fn domino_cells(imgs: Seq<Image>) -> nat {
    if imgs.len() == 0 {
        1
    } else {
        imgs.len()
    }
}

/// The sizes `build_domino` needs: cells of at least 4 pixels (its 3-pixel
/// border is drawn at four times the size), and a supersampled canvas that
/// can be addressed and allocated.
pub open spec fn domino_fits(imgs: Seq<Image>, m: DominoMetrics) -> bool {
    let s = domino_cell(imgs, m);
    let n = domino_cells(imgs);
    &&& s >= 4
    &&& s * n * 4 <= u32::MAX
    &&& m.radius * 4 <= u32::MAX
    &&& m.inset <= s * 4
    &&& (s * n * 4) * (s * 4) * 4 <= usize::MAX
}

/// The bytes of a `w` x `h` tile holding `base` after the first `k` emoji are
/// drawn with `image`'s overlay, each centered in its square cell of side `s`.
pub open spec fn cells_bytes(w: nat, h: nat, base: Seq<u8>, imgs: Seq<Image>, s: int, k: int) -> Seq<u8>
    decreases k,
{
    if k <= 0 {
        base
    } else {
        overlay_result(
            w,
            h,
            cells_bytes(w, h, base, imgs, s, k - 1),
            imgs[k - 1].w(),
            imgs[k - 1].h(),
            imgs[k - 1].bytes(),
            cell_x(k - 1, s, imgs[k - 1].w() as int),
            cell_y(s, imgs[k - 1].h() as int),
        )
    }
}

/// Whether `build_domino` can take these emoji and metrics.
pub fn domino_fits_check(emojis: &Vec<Image>, m: &DominoMetrics) -> (b: bool)
    ensures
        b == domino_fits(emojis@, *m),
{
    let emax = max_emoji_extent(emojis) as u128;
    let s = emax + 2 * (m.cell_pad as u128);
    let n: u128 = if emojis.len() == 0 { 1 } else { emojis.len() as u128 };
    proof {
        assert(emojis@.len() <= usize::MAX);
    }
    if s < 4 {
        return false;
    }
    assert(s * n * 4 <= 0x3_0000_0000 * 0x1_0000_0000_0000_0000 * 4) by (nonlinear_arith)
        requires
            s <= 0x3_0000_0000,
            n <= 0x1_0000_0000_0000_0000,
    ;
    if s * n * 4 > u32::MAX as u128 || (m.radius as u128) * 4 > u32::MAX as u128 || (m.inset as u128) > s * 4 {
        return false;
    }
    assert((s * n * 4) * (s * 4) * 4 <= 0x1_0000_0000 * 0x1_0000_0000 * 4) by (nonlinear_arith)
        requires
            s * n * 4 <= u32::MAX,
            n >= 1,
            s >= 0,
    ;
    (s * n * 4) * (s * 4) * 4 <= usize::MAX as u128
}

/// `tile` is `base` (a row of square cells as tall as it is) with each emoji
/// drawn centered in its own cell: exactly the overlay chain, so opaque emoji
/// pixels replace the base, transparent ones leave it, and cells past the
/// emoji keep it.
pub open spec fn cells_drawn(base: &Image, imgs: Seq<Image>, tile: &Image) -> bool {
    let s = base.h() as int;
    &&& tile.wf()
    &&& tile.w() == base.w()
    &&& tile.h() == base.h()
    &&& tile.bytes() == cells_bytes(base.w(), base.h(), base.bytes(), imgs, s, imgs.len() as int)
    &&& forall|i: int|
        0 <= i < imgs.len() ==> drawn_over(
            tile,
            base,
            &imgs[i],
            cell_x(i, s, imgs[i].w() as int),
            cell_y(s, imgs[i].h() as int),
        )
    &&& forall|x: int, y: int|
        #![trigger tile.pixel(x, y)]
        tile.in_bounds(x, y) && !covered_by_cells(imgs, s, imgs.len() as int, x, y) ==> tile.pixel(x, y)
            == base.pixel(x, y)
}

/// Draw each emoji centered in its cell of a tile whose cells are squares as
/// tall as the tile, over whatever the tile already shows.
pub fn draw_in_cells(base: Image, emojis: &Vec<Image>) -> (tile: Image)
    requires
        base.wf(),
        forall|i: int| 0 <= i < emojis@.len() ==> (#[trigger] emojis@[i]).wf(),
        forall|i: int| 0 <= i < emojis@.len() ==> #[trigger] emojis@[i].w() <= base.h() && emojis@[i].h() <= base.h(),
        emojis@.len() * base.h() <= base.w(),
    ensures
        cells_drawn(&base, emojis@, &tile),
{
    let ghost imgs = emojis@;
    let ghost b = base;
    let s = base.height();
    let h = s;
    let mut tile = base;
    let mut i: usize = 0;
    while i < emojis.len()
        invariant
            imgs == emojis@,
            i <= imgs.len(),
            forall|j: int| 0 <= j < imgs.len() ==> (#[trigger] imgs[j]).wf(),
            forall|j: int| 0 <= j < imgs.len() ==> #[trigger] imgs[j].w() <= s && imgs[j].h() <= s,
            imgs.len() * s <= b.w(),
            h == s,
            s == b.h(),
            b.wf(),
            tile.wf(),
            tile.w() == b.w(),
            tile.h() == b.h(),
            tile.bytes() == cells_bytes(b.w(), b.h(), b.bytes(), imgs, s as int, i as int),
            forall|j: int|
                0 <= j < i ==> drawn_over(
                    &tile,
                    &b,
                    &imgs[j],
                    cell_x(j, s as int, imgs[j].w() as int),
                    cell_y(s as int, imgs[j].h() as int),
                ),
            forall|x: int, y: int|
                #![trigger tile.pixel(x, y)]
                tile.in_bounds(x, y) && (x >= i * s || !covered_by_cells(imgs, s as int, i as int, x, y))
                    ==> tile.pixel(x, y) == b.pixel(x, y),
        decreases imgs.len() - i,
    {
        let e = &emojis[i];
        let ghost ei = i as int;
        assert(ei * s + s <= imgs.len() * s && ei * s >= 0 && (ei + 1) * s == ei * s + s) by (nonlinear_arith)
            requires
                0 <= ei < imgs.len(),
                s >= 0,
        ;
        let left = (i as u64) * (s as u64);
        let cx = left + (s / 2) as u64;
        let ex = cx as i64 - (e.width() / 2) as i64;
        let ey = (h / 2) as i64 - (e.height() / 2) as i64;
        let ghost before = tile;
        overlay(&mut tile, e, ex, ey);
        proof {
            domino_place_step(imgs, s as int, ei, &b, &before, &tile);
        }
        i += 1;
    }
    tile
}

/// Build the domino tile: a rounded N:1 tile with an emoji centered in each
/// cell and a contrasting divider between cells.
pub fn build_domino(emojis: &Vec<Image>, badge: &BadgeStyle, m: &DominoMetrics) -> (tile: Image)
    requires
        forall|i: int| 0 <= i < emojis@.len() ==> (#[trigger] emojis@[i]).wf(),
        domino_fits(emojis@, *m),
    ensures
        tile.wf(),
        tile.w() == domino_cell(emojis@, *m) * domino_cells(emojis@),
        tile.h() == domino_cell(emojis@, *m),
        exists|hi: Image, base: Image|
            #[trigger] domino_base(&hi, &base, domino_cell(emojis@, *m), domino_cells(emojis@), badge.fill, *m)
            && cells_drawn(&base, emojis@, &tile),
{
    let ghost imgs = emojis@;
    let emax = max_emoji_extent(emojis);
    proof {
        lemma_emoji_extent(imgs);
        let sc = domino_cell(imgs, *m);
        let nc = domino_cells(imgs);
        assert(sc <= sc * nc * 4 && nc <= sc * nc * 4) by (nonlinear_arith)
            requires
                sc >= 4,
                nc >= 1,
        ;
    }
    let s = emax + m.cell_pad * 2;
    let n: u32 = if emojis.len() == 0 { 1 } else { emojis.len() as u32 };
    let hi = draw_domino_hires(s, n, badge.fill, *m);
    assert((s * n * 4) * s * 4 <= usize::MAX && (s * n) * s * 4 <= usize::MAX) by (nonlinear_arith)
        requires
            (s * n * 4) * (s * 4) * 4 <= usize::MAX,
            s >= 4,
            n >= 1,
    ;
    let w = s * n;
    let base = resize(&hi, w, s, ResizeFilter::Lanczos3);
    assert(emojis@.len() * s <= s * n) by (nonlinear_arith)
        requires
            emojis@.len() <= n,
            s >= 0,
    ;
    let tile = draw_in_cells(base, emojis);
    proof {
        assert(domino_base(&hi, &base, s as nat, n as nat, badge.fill, *m));
    }
    tile
}

/// Drawing the `k`-th emoji in its cell keeps the earlier ones and leaves
/// the cells to its right showing the base.
proof fn domino_place_step(imgs: Seq<Image>, s: int, k: int, base: &Image, before: &Image, after: &Image)
    requires
        0 <= k < imgs.len(),
        imgs[k].wf(),
        forall|j: int| 0 <= j < imgs.len() ==> #[trigger] imgs[j].w() <= s && imgs[j].h() <= s,
        k * s + s <= before.w(),
        s == before.h(),
        s >= 0,
        overlaid(before, after, &imgs[k], cell_x(k, s, imgs[k].w() as int), cell_y(s, imgs[k].h() as int)),
        forall|j: int|
            0 <= j < k ==> drawn_over(before, base, &imgs[j], cell_x(j, s, imgs[j].w() as int), cell_y(s, imgs[j].h() as int)),
        forall|x: int, y: int|
            #![trigger before.pixel(x, y)]
            before.in_bounds(x, y) && (x >= k * s || !covered_by_cells(imgs, s, k, x, y))
                ==> before.pixel(x, y) == base.pixel(x, y),
    ensures
        forall|j: int|
            0 <= j < k + 1 ==> drawn_over(after, base, &imgs[j], cell_x(j, s, imgs[j].w() as int), cell_y(s, imgs[j].h() as int)),
        forall|x: int, y: int|
            #![trigger after.pixel(x, y)]
            after.in_bounds(x, y) && (x >= (k + 1) * s || !covered_by_cells(imgs, s, k + 1, x, y))
                ==> after.pixel(x, y) == base.pixel(x, y),
{
    let e = imgs[k];
    let tx = cell_x(k, s, e.w() as int);
    let ty = cell_y(s, e.h() as int);
    assert((k + 1) * s == k * s + s) by (nonlinear_arith);
    assert(tx >= k * s && tx + e.w() <= k * s + s && ty >= 0 && ty + e.h() <= s);
    assert forall|j: int|
        0 <= j < k + 1 implies drawn_over(after, base, &imgs[j], cell_x(j, s, imgs[j].w() as int), cell_y(s, imgs[j].h() as int)) by {
        if j < k {
            let ej = imgs[j];
            assert(j * s + s <= k * s && j * s >= 0) by (nonlinear_arith)
                requires
                    0 <= j < k,
                    s >= 0,
            ;
            lemma_keep_drawn(before, after, &e, tx, ty, base, &ej, cell_x(j, s, ej.w() as int), cell_y(s, ej.h() as int));
        } else {
            assert forall|x: int, y: int| in_rect(x, y, tx, ty, e.w() as int, e.h() as int)
                implies #[trigger] before.pixel(x, y) == base.pixel(x, y) by {
                assert(before.in_bounds(x, y));
            }
            lemma_draw(before, after, &e, tx, ty, base);
        }
    }
    assert forall|x: int, y: int|
        #![trigger after.pixel(x, y)]
        after.in_bounds(x, y) && (x >= (k + 1) * s || !covered_by_cells(imgs, s, k + 1, x, y))
            implies after.pixel(x, y) == base.pixel(x, y) by {
        if in_rect(x, y, tx, ty, e.w() as int, e.h() as int) {
            assert(covered_by_cells(imgs, s, k + 1, x, y));
        } else {
            assert(!e.in_bounds(x - tx, y - ty));
            assert(before.pixel(x, y) == base.pixel(x, y));
        }
    }
}


/// The color of the drop shadow: a dark blue-black, partly transparent.
pub open spec fn shadow_color() -> Rgba {
    Rgba { r: 12, g: 14, b: 20, a: 115 }
}

/// The sizes `shadow_silhouette` computes in `u32` (the canvas, and the
/// shadow rectangle's far corner) and allocates.
pub open spec fn silhouette_fits(tw: int, th: int, pad: int, dy: int) -> bool {
    &&& tw + 2 * pad <= u32::MAX
    &&& th + 2 * pad <= u32::MAX
    &&& pad + dy + th <= u32::MAX
    &&& pad + tw >= 1
    &&& pad + dy + th >= 1
    &&& (tw + 2 * pad) * (th + 2 * pad) * 4 <= usize::MAX
}

/// Whether `shadow_silhouette` can take these sizes.
pub fn silhouette_fits_check(tw: u32, th: u32, pad: u32, dy: u32) -> (b: bool)
    ensures
        b == silhouette_fits(tw as int, th as int, pad as int, dy as int),
{
    let (w, h, p, d) = (tw as u128, th as u128, pad as u128, dy as u128);
    if w + 2 * p > u32::MAX as u128 || h + 2 * p > u32::MAX as u128 || p + d + h > u32::MAX as u128 {
        return false;
    }
    if p + w < 1 || p + d + h < 1 {
        return false;
    }
    assert((w + 2 * p) * (h + 2 * p) * 4 <= 0x1_0000_0000 * 0x1_0000_0000 * 4) by (nonlinear_arith)
        requires
            w + 2 * p <= u32::MAX,
            h + 2 * p <= u32::MAX,
    ;
    (w + 2 * p) * (h + 2 * p) * 4 <= usize::MAX as u128
}

/// The silhouette of a `tw` x `th` tile's drop shadow, before blurring: a
/// transparent canvas `pad` pixels larger on every side, holding a rounded
/// rectangle of the tile's size `dy` pixels below the tile's place, in the
/// shadow color.
pub fn shadow_silhouette(tw: u32, th: u32, pad: u32, dy: u32, radius: u32) -> (img: Image)
    requires
        silhouette_fits(tw as int, th as int, pad as int, dy as int),
    ensures
        img.wf(),
        img.w() == tw + 2 * pad,
        img.h() == th + 2 * pad,
        forall|x: int, y: int|
            #![trigger img.pixel(x, y)]
            img.in_bounds(x, y) ==> img.pixel(x, y) == if in_rounded(
                x,
                y,
                pad as int,
                pad + dy,
                pad + tw - 1,
                pad + dy + th - 1,
                radius as int,
            ) {
                shadow_color()
            } else {
                clear()
            },
{
    let cw = tw + pad * 2;
    let ch = th + pad * 2;
    let mut img = Image::new(cw, ch);
    fill_rounded(
        &mut img,
        pad,
        pad + dy,
        pad + tw - 1,
        pad + dy + th - 1,
        radius,
        Rgba { r: 12, g: 14, b: 20, a: 115 },
    );
    img
}

/// A tile laid on its (blurred) shadow: a transparent canvas of the shadow's
/// size, the shadow drawn over it, then the tile drawn `pad` pixels in from
/// the top-left corner. The tile's opaque pixels show as they are.
pub fn place_on_shadow(shadow: &Image, tile: &Image, pad: u32) -> (canvas: Image)
    requires
        shadow.wf(),
        tile.wf(),
        shadow.w() * shadow.h() * 4 <= usize::MAX,
    ensures
        canvas.wf(),
        canvas.w() == shadow.w(),
        canvas.h() == shadow.h(),
        canvas.bytes() == overlay_result(
            shadow.w(),
            shadow.h(),
            overlay_result(
                shadow.w(),
                shadow.h(),
                zeros(shadow.w() * shadow.h() * 4),
                shadow.w(),
                shadow.h(),
                shadow.bytes(),
                0,
                0,
            ),
            tile.w(),
            tile.h(),
            tile.bytes(),
            pad as int,
            pad as int,
        ),
        forall|u: int, v: int|
            #![trigger tile.pixel(u, v)]
            tile.in_bounds(u, v) && canvas.in_bounds(pad + u, pad + v) && tile.pixel(u, v).a == 255
                ==> canvas.pixel(pad + u, pad + v) == tile.pixel(u, v),
{
    let mut canvas = Image::new(shadow.width(), shadow.height());
    overlay(&mut canvas, shadow, 0, 0);
    let ghost under = canvas;
    overlay(&mut canvas, tile, pad as i64, pad as i64);
    assert forall|u: int, v: int|
        #![trigger tile.pixel(u, v)]
        tile.in_bounds(u, v) && canvas.in_bounds(pad + u, pad + v) && tile.pixel(u, v).a == 255
            implies canvas.pixel(pad + u, pad + v) == tile.pixel(u, v) by {
        assert(under.in_bounds(pad + u, pad + v));
    }
    canvas
}


/// Padding only separates neighbours: a row of one image and no text, or of
/// text alone, has the same size and the same drawing whatever the padding.
pub proof fn lemma_padding_only_between(
    imgs: Seq<Image>,
    text: Option<&Image>,
    p1: int,
    p2: int,
    w: nat,
    h: nat,
    total: int,
)
    requires
        (imgs.len() == 1 && text is None) || imgs.len() == 0,
    ensures
        row_width(imgs, text, p1) == row_width(imgs, text, p2),
        row_bytes(w, h, imgs, p1, total, imgs.len() as int) == row_bytes(w, h, imgs, p2, total, imgs.len() as int),
        x_offset(imgs, p1, 0) == x_offset(imgs, p2, 0),
{
    if imgs.len() == 1 {
        assert(x_offset(imgs, p1, 0) == 0);
        assert(x_offset(imgs, p2, 0) == 0);
        assert(x_offset(imgs, p1, 1) == x_offset(imgs, p1, 0) + imgs[0].w() + p1);
        assert(x_offset(imgs, p2, 1) == x_offset(imgs, p2, 0) + imgs[0].w() + p2);
        assert(row_bytes(w, h, imgs, p1, total, 0) == row_bytes(w, h, imgs, p2, total, 0));
    }
}

} // verus!
