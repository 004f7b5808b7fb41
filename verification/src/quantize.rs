//! Reducing an image's opaque pixels to a small median-cut palette.

use vstd::prelude::*;

use crate::palette::{average, boxes_view, dist2, median_cut, median_cut_boxes, spec_average, spec_dist2};
use crate::palette_laws::lemma_median_cut_from_colors;
use crate::raster::{pix, Image, Rgba};

verus! {

/// The RGB part of a pixel.
pub open spec fn rgb_of(q: Rgba) -> [u8; 3] {
    [q.r, q.g, q.b]
}

/// The colors of the opaque pixels among the first `n`, in row-major order.
pub open spec fn opaque_colors(bytes: Seq<u8>, n: int) -> Seq<[u8; 3]>
    decreases n,
{
    if n <= 0 {
        Seq::empty()
    } else {
        let prev = opaque_colors(bytes, n - 1);
        let q = pix(bytes, n - 1);
        if q.a > 0 {
            prev.push(rgb_of(q))
        } else {
            prev
        }
    }
}

/// The palette: the average color of each median-cut box, in box order.
pub open spec fn spec_palette(colors: Seq<[u8; 3]>, max: int) -> Seq<[u8; 3]> {
    median_cut(seq![colors], max).map_values(|b: Seq<[u8; 3]>| spec_average(b))
}

/// Index of the palette entry nearest to `c`; the first one on a tie.
pub open spec fn nearest_index(palette: Seq<[u8; 3]>, c: [u8; 3]) -> int
    decreases palette.len(),
{
    if palette.len() <= 1 {
        0
    } else {
        let j = nearest_index(palette.drop_last(), c);
        if spec_dist2(palette.last(), c) < spec_dist2(palette[j], c) {
            palette.len() - 1
        } else {
            j
        }
    }
}

/// An opaque pixel takes its nearest palette color and keeps its alpha; a
/// transparent one is left alone.
pub open spec fn recolor(q: Rgba, palette: Seq<[u8; 3]>) -> Rgba {
    if q.a == 0 || palette.len() == 0 {
        q
    } else {
        let best = palette[nearest_index(palette, rgb_of(q))];
        Rgba { r: best[0], g: best[1], b: best[2], a: q.a }
    }
}

pub proof fn lemma_nearest_index_bounds(palette: Seq<[u8; 3]>, c: [u8; 3])
    requires
        palette.len() > 0,
    ensures
        0 <= nearest_index(palette, c) < palette.len(),
    decreases palette.len(),
{
    if palette.len() > 1 {
        lemma_nearest_index_bounds(palette.drop_last(), c);
    }
}

/// The palette entry nearest to `c`.
fn nearest(palette: &Vec<[u8; 3]>, c: [u8; 3]) -> (r: [u8; 3])
    requires
        palette@.len() > 0,
    ensures
        r == palette@[nearest_index(palette@, c)],
{
    let mut best: usize = 0;
    let mut best_d = dist2(palette[0], c);
    let mut i: usize = 1;
    while i < palette.len()
        invariant
            1 <= i <= palette@.len(),
            best == nearest_index(palette@.take(i as int), c),
            best < i,
            best_d == spec_dist2(palette@[best as int], c),
        decreases palette@.len() - i,
    {
        proof {
            let t = palette@.take(i + 1);
            assert(t.drop_last() == palette@.take(i as int));
            assert(t.last() == palette@[i as int]);
            assert(t[best as int] == palette@[best as int]);
        }
        let d = dist2(palette[i], c);
        if d < best_d {
            best = i;
            best_d = d;
        }
        i += 1;
    }
    assert(palette@.take(palette@.len() as int) == palette@);
    palette[best]
}

/// The colors of the opaque pixels, in row-major order.
fn collect_opaque(img: &Image) -> (cs: Vec<[u8; 3]>)
    requires
        img.wf(),
    ensures
        cs@ == opaque_colors(img.bytes(), img.count() as int),
{
    let n = img.pixel_count();
    let mut cs: Vec<[u8; 3]> = Vec::new();
    let mut p: usize = 0;
    while p < n
        invariant
            img.wf(),
            n == img.count(),
            p <= n,
            cs@ == opaque_colors(img.bytes(), p as int),
        decreases n - p,
    {
        let q = img.get_pixel_at(p);
        if q.a > 0 {
            cs.push([q.r, q.g, q.b]);
        }
        p += 1;
    }
    cs
}

/// Median-cut palette reduction over the opaque pixels, remapping in place:
/// every opaque pixel takes the nearest palette color (keeping its alpha).
pub fn quantize_palette(img: &mut Image, max_colors: usize)
    requires
        old(img).wf(),
    ensures
        final(img).wf(),
        final(img).w() == old(img).w(),
        final(img).h() == old(img).h(),
        ({
            let cs = opaque_colors(old(img).bytes(), old(img).count() as int);
            if cs.len() == 0 {
                final(img).bytes() == old(img).bytes()
            } else {
                forall|p: int|
                    0 <= p < old(img).count() ==> #[trigger] pix(final(img).bytes(), p) == recolor(
                        pix(old(img).bytes(), p),
                        spec_palette(cs, max_colors as int),
                    )
            }
        }),
{
    let colors = collect_opaque(img);
    if colors.len() == 0 {
        return;
    }
    let ghost cs = colors@;
    let boxes = median_cut_boxes(colors, max_colors);
    let ghost bv = boxes_view(boxes@);
    proof {
        lemma_median_cut_from_colors(cs, max_colors as int);
    }
    let ghost pal_spec = spec_palette(cs, max_colors as int);
    let mut palette: Vec<[u8; 3]> = Vec::new();
    let mut i: usize = 0;
    while i < boxes.len()
        invariant
            bv == boxes_view(boxes@),
            bv == median_cut(seq![cs], max_colors as int),
            pal_spec == spec_palette(cs, max_colors as int),
            i <= boxes@.len(),
            palette@ == pal_spec.take(i as int),
        decreases boxes@.len() - i,
    {
        proof {
            assert(boxes@[i as int]@ == bv[i as int]);
        }
        let a = average(&boxes[i]);
        palette.push(a);
        proof {
            assert(pal_spec[i as int] == spec_average(bv[i as int]));
            assert(palette@ == pal_spec.take(i + 1));
        }
        i += 1;
    }
    assert(palette@ == pal_spec);
    assert(palette@.len() > 0);

    let n = img.pixel_count();
    let ghost before = img.bytes();
    let mut p: usize = 0;
    while p < n
        invariant
            img.wf(),
            n == img.count(),
            img.w() == old(img).w(),
            img.h() == old(img).h(),
            before == old(img).bytes(),
            p <= n,
            palette@ == pal_spec,
            palette@.len() > 0,
            forall|q: int| 0 <= q < p ==> #[trigger] pix(img.bytes(), q) == recolor(pix(before, q), pal_spec),
            forall|q: int| p <= q < n ==> #[trigger] pix(img.bytes(), q) == pix(before, q),
        decreases n - p,
    {
        let q = img.get_pixel_at(p);
        if q.a != 0 {
            let best = nearest(&palette, [q.r, q.g, q.b]);
            proof {
                lemma_nearest_index_bounds(palette@, rgb_of(q));
                assert([q.r, q.g, q.b] == rgb_of(q));
            }
            img.put_pixel_at(p, Rgba { r: best[0], g: best[1], b: best[2], a: q.a });
        }
        p += 1;
    }
}


/// Palette reduction leaves few colors: the palette built from a non-empty
/// color list has min(max(1, max), number of colors) entries, and recoloring
/// gives every opaque pixel one of them, keeping its alpha, while a
/// transparent pixel is left as it was.
pub proof fn lemma_recolor_uses_palette(cs: Seq<[u8; 3]>, max: int, q: Rgba)
    requires
        cs.len() > 0,
    ensures
        spec_palette(cs, max).len() == if max <= 1 {
            1
        } else if max <= cs.len() {
            max
        } else {
            cs.len() as int
        },
        recolor(q, spec_palette(cs, max)).a == q.a,
        q.a == 0 ==> recolor(q, spec_palette(cs, max)) == q,
        q.a > 0 ==> spec_palette(cs, max).contains(rgb_of(recolor(q, spec_palette(cs, max)))),
{
    lemma_median_cut_from_colors(cs, max);
    let pal = spec_palette(cs, max);
    assert(pal.len() == median_cut(seq![cs], max).len());
    if q.a > 0 {
        lemma_nearest_index_bounds(pal, rgb_of(q));
        let j = nearest_index(pal, rgb_of(q));
        let best = pal[j];
        assert(rgb_of(recolor(q, pal)) == best);
    }
}

} // verus!
