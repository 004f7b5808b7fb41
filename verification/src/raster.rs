//! An RGBA8 raster held as plain bytes, and the `image` crate operations the
//! logo pipeline performs on it.

use vstd::prelude::*;

verus! {

/// One RGBA pixel.
#[derive(Clone, Copy, Debug, PartialEq, Eq, Structural)]
pub struct Rgba {
    pub r: u8,
    pub g: u8,
    pub b: u8,
    pub a: u8,
}

/// A `width` x `height` image stored row-major, four bytes (R, G, B, A) per
/// pixel, as `image::RgbaImage` stores it.
pub struct Image {
    width: u32,
    height: u32,
    data: Vec<u8>,
}

/// Byte offset of pixel (x, y) in a row-major RGBA buffer of width `w`.
pub open spec fn px_offset(w: int, x: int, y: int) -> int {
    (y * w + x) * 4
}

/// The pixel at (x, y) of a row-major RGBA buffer of width `w`.
pub open spec fn pixel_of(bytes: Seq<u8>, w: int, x: int, y: int) -> Rgba {
    let i = px_offset(w, x, y);
    Rgba { r: bytes[i], g: bytes[i + 1], b: bytes[i + 2], a: bytes[i + 3] }
}

/// The `p`-th pixel of a row-major RGBA buffer (row-major index `y * w + x`).
pub open spec fn pix(bytes: Seq<u8>, p: int) -> Rgba {
    let i = p * 4;
    Rgba { r: bytes[i], g: bytes[i + 1], b: bytes[i + 2], a: bytes[i + 3] }
}

/// `n` zero bytes: the buffer of a fresh transparent canvas.
pub open spec fn zeros(n: nat) -> Seq<u8> {
    Seq::new(n, |i: int| 0u8)
}

/// A fully transparent black pixel, the content of a fresh canvas.
pub open spec fn clear() -> Rgba {
    Rgba { r: 0, g: 0, b: 0, a: 0 }
}

pub proof fn lemma_offset_bounds(w: int, h: int, x: int, y: int)
    requires
        0 <= x < w,
        0 <= y < h,
    ensures
        0 <= y * w,
        y * w + x < w * h,
        0 <= px_offset(w, x, y),
        px_offset(w, x, y) + 4 <= w * h * 4,
{
    assert(0 <= y * w) by (nonlinear_arith)
        requires
            0 <= y,
            0 <= w,
    ;
    assert((y * w + x) + 1 <= w * h) by (nonlinear_arith)
        requires
            0 <= x < w,
            0 <= y < h,
    ;
}

pub proof fn lemma_offset_distinct(w: int, x1: int, y1: int, x2: int, y2: int)
    requires
        0 <= x1 < w,
        0 <= x2 < w,
        0 <= y1,
        0 <= y2,
        x1 != x2 || y1 != y2,
    ensures
        px_offset(w, x1, y1) + 4 <= px_offset(w, x2, y2) || px_offset(w, x2, y2) + 4 <= px_offset(
            w,
            x1,
            y1,
        ),
{
    if y1 == y2 {
    } else if y1 < y2 {
        assert(y1 * w + x1 < y2 * w + x2) by (nonlinear_arith)
            requires
                0 <= x1 < w,
                0 <= x2 < w,
                y1 < y2,
        ;
    } else {
        assert(y2 * w + x2 < y1 * w + x1) by (nonlinear_arith)
            requires
                0 <= x1 < w,
                0 <= x2 < w,
                y2 < y1,
        ;
    }
}

/// Two buffers of the same shape that agree at every pixel are equal.
pub proof fn lemma_bytes_eq_from_pixels(a: Seq<u8>, b: Seq<u8>, w: int, h: int)
    requires
        0 <= w,
        0 <= h,
        a.len() == w * h * 4,
        b.len() == w * h * 4,
        forall|x: int, y: int| 0 <= x < w && 0 <= y < h ==> pixel_of(a, w, x, y) == pixel_of(b, w, x, y),
    ensures
        a == b,
{
    assert forall|i: int| 0 <= i < a.len() implies a[i] == b[i] by {
        let p = i / 4;
        let k = i % 4;
        let x = p % w;
        let y = p / w;
        assert(0 <= p < w * h && i == p * 4 + k && 0 <= k < 4) by (nonlinear_arith)
            requires
                0 <= i < w * h * 4,
                p == i / 4,
                k == i % 4,
        ;
        assert(0 <= x < w && 0 <= y < h && p == y * w + x) by (nonlinear_arith)
            requires
                0 <= p < w * h,
                x == p % w,
                y == p / w,
                0 < w,
        ;
        assert(pixel_of(a, w, x, y) == pixel_of(b, w, x, y));
    }
    assert(a =~= b);
}

impl Image {
    pub closed spec fn w(&self) -> nat {
        self.width as nat
    }

    pub closed spec fn h(&self) -> nat {
        self.height as nat
    }

    /// The raw RGBA bytes, row-major.
    pub closed spec fn bytes(&self) -> Seq<u8> {
        self.data@
    }

    /// The buffer holds exactly four bytes per pixel.
    pub open spec fn wf(&self) -> bool {
        &&& self.bytes().len() == self.w() * self.h() * 4
        &&& self.w() <= u32::MAX
        &&& self.h() <= u32::MAX
        &&& self.bytes().len() <= usize::MAX
    }

    pub open spec fn pixel(&self, x: int, y: int) -> Rgba {
        pixel_of(self.bytes(), self.w() as int, x, y)
    }

    pub open spec fn in_bounds(&self, x: int, y: int) -> bool {
        0 <= x < self.w() && 0 <= y < self.h()
    }

    /// Number of pixels.
    pub open spec fn count(&self) -> nat {
        self.w() * self.h()
    }

    pub fn pixel_count(&self) -> (n: usize)
        requires
            self.wf(),
        ensures
            n == self.count(),
    {
        self.data.len() / 4
    }

    /// The `p`-th pixel in row-major order.
    pub fn get_pixel_at(&self, p: usize) -> (c: Rgba)
        requires
            self.wf(),
            p < self.count(),
        ensures
            c == pix(self.bytes(), p as int),
    {
        let i = p * 4;
        Rgba { r: self.data[i], g: self.data[i + 1], b: self.data[i + 2], a: self.data[i + 3] }
    }

    /// Overwrite the `p`-th pixel in row-major order.
    pub fn put_pixel_at(&mut self, p: usize, c: Rgba)
        requires
            old(self).wf(),
            p < old(self).count(),
        ensures
            final(self).wf(),
            final(self).w() == old(self).w(),
            final(self).h() == old(self).h(),
            pix(final(self).bytes(), p as int) == c,
            forall|q: int|
                0 <= q < old(self).count() && q != p ==> pix(final(self).bytes(), q) == pix(
                    old(self).bytes(),
                    q,
                ),
    {
        let i = p * 4;
        self.data.set(i, c.r);
        self.data.set(i + 1, c.g);
        self.data.set(i + 2, c.b);
        self.data.set(i + 3, c.a);
    }

    /// A transparent canvas, as `RgbaImage::new`.
    pub fn new(width: u32, height: u32) -> (img: Image)
        requires
            width * height * 4 <= usize::MAX,
        ensures
            img.wf(),
            img.w() == width,
            img.h() == height,
            forall|x: int, y: int| img.in_bounds(x, y) ==> img.pixel(x, y) == clear(),
            img.bytes() == zeros((width * height * 4) as nat),
    {
        let n = (width as usize) * (height as usize) * 4;
        let mut data: Vec<u8> = Vec::new();
        let mut i: usize = 0;
        while i < n
            invariant
                i <= n,
                data@.len() == i,
                forall|j: int| 0 <= j < i ==> data@[j] == 0,
            decreases n - i,
        {
            data.push(0);
            i += 1;
        }
        let img = Image { width, height, data };
        assert(img.bytes() =~= zeros((width * height * 4) as nat));
        assert forall|x: int, y: int| img.in_bounds(x, y) implies img.pixel(x, y) == clear() by {
            lemma_offset_bounds(width as int, height as int, x, y);
        }
        img
    }

    /// Wrap raw RGBA bytes; `None` when the length does not match the shape.
    pub fn from_raw(width: u32, height: u32, data: Vec<u8>) -> (r: Option<Image>)
        ensures
            r is Some <==> data@.len() == width * height * 4,
            r matches Some(img) ==> img.wf() && img.w() == width && img.h() == height && img.bytes()
                == data@,
    {
        let len = data.len();
        match (width as usize).checked_mul(height as usize) {
            None => {
                assert(width * height * 4 > usize::MAX) by (nonlinear_arith)
                    requires
                        width * height > usize::MAX,
                ;
                None
            },
            Some(wh) => match wh.checked_mul(4) {
                None => None,
                Some(n) => if len == n {
                    Some(Image { width, height, data })
                } else {
                    None
                },
            },
        }
    }

    pub fn width(&self) -> (r: u32)
        ensures
            r == self.w(),
    {
        self.width
    }

    pub fn height(&self) -> (r: u32)
        ensures
            r == self.h(),
    {
        self.height
    }

    /// A copy of the image.
    pub fn duplicate(&self) -> (c: Image)
        ensures
            c.w() == self.w(),
            c.h() == self.h(),
            c.bytes() == self.bytes(),
    {
        let mut data: Vec<u8> = Vec::new();
        let mut i: usize = 0;
        while i < self.data.len()
            invariant
                i <= self.data@.len(),
                data@ == self.data@.take(i as int),
            decreases self.data@.len() - i,
        {
            data.push(self.data[i]);
            i += 1;
        }
        assert(self.data@.take(self.data@.len() as int) == self.data@);
        Image { width: self.width, height: self.height, data }
    }

    /// The raw bytes, row-major RGBA.
    pub fn as_raw(&self) -> (r: &Vec<u8>)
        ensures
            r@ == self.bytes(),
    {
        &self.data
    }

    pub fn into_raw(self) -> (r: Vec<u8>)
        ensures
            r@ == self.bytes(),
    {
        self.data
    }

    pub fn get_pixel(&self, x: u32, y: u32) -> (c: Rgba)
        requires
            self.wf(),
            x < self.w(),
            y < self.h(),
        ensures
            c == self.pixel(x as int, y as int),
    {
        proof {
            lemma_offset_bounds(self.width as int, self.height as int, x as int, y as int);
        }
        let i = ((y as usize) * (self.width as usize) + (x as usize)) * 4;
        Rgba { r: self.data[i], g: self.data[i + 1], b: self.data[i + 2], a: self.data[i + 3] }
    }

    pub fn put_pixel(&mut self, x: u32, y: u32, c: Rgba)
        requires
            old(self).wf(),
            x < old(self).w(),
            y < old(self).h(),
        ensures
            final(self).wf(),
            final(self).w() == old(self).w(),
            final(self).h() == old(self).h(),
            final(self).pixel(x as int, y as int) == c,
            forall|x2: int, y2: int|
                old(self).in_bounds(x2, y2) && (x2 != x || y2 != y) ==> final(self).pixel(x2, y2)
                    == old(self).pixel(x2, y2),
    {
        proof {
            lemma_offset_bounds(self.width as int, self.height as int, x as int, y as int);
        }
        let ghost w = self.width as int;
        let ghost before = self.data@;
        let i = ((y as usize) * (self.width as usize) + (x as usize)) * 4;
        self.data.set(i, c.r);
        self.data.set(i + 1, c.g);
        self.data.set(i + 2, c.b);
        self.data.set(i + 3, c.a);
        assert forall|x2: int, y2: int|
            old(self).in_bounds(x2, y2) && (x2 != x || y2 != y) implies self.pixel(x2, y2)
            == old(self).pixel(x2, y2) by {
            lemma_offset_distinct(w, x as int, y as int, x2, y2);
            lemma_offset_bounds(w, self.height as int, x2, y2);
        }
    }
}

/// What `image::imageops::overlay` leaves in the bottom buffer when the top
/// image is drawn with its top-left corner at (x, y). Partially transparent
/// top pixels are alpha-composited in floating point, which is left unnamed
/// beyond this function.
pub uninterp spec fn overlay_result(
    bw: nat,
    bh: nat,
    bottom: Seq<u8>,
    tw: nat,
    th: nat,
    top: Seq<u8>,
    x: int,
    y: int,
) -> Seq<u8>;

/// What overlay does to one bottom pixel: untouched where the top image does
/// not reach or is fully transparent, replaced where the top pixel is opaque.
pub open spec fn overlay_pixel_fact(old_px: Rgba, new_px: Rgba, top: &Image, tx: int, ty: int) -> bool {
    if !top.in_bounds(tx, ty) || top.pixel(tx, ty).a == 0 {
        new_px == old_px
    } else if top.pixel(tx, ty).a == 255 {
        new_px == top.pixel(tx, ty)
    } else {
        true
    }
}

/// `after` is `before` with `top` drawn at (x, y), as far as overlay's facts
/// go (see `overlay_pixel_fact`).
pub open spec fn overlaid(before: &Image, after: &Image, top: &Image, x: int, y: int) -> bool {
    &&& after.wf()
    &&& after.w() == before.w()
    &&& after.h() == before.h()
    &&& forall|bx: int, by: int|
        before.in_bounds(bx, by) ==> overlay_pixel_fact(
            before.pixel(bx, by),
            #[trigger] after.pixel(bx, by),
            top,
            bx - x,
            by - y,
        )
}

/// `image::imageops::overlay`: for every bottom pixel (bx, by) whose partner
/// (bx - x, by - y) lies inside `top`, the top pixel is blended over it
/// (`Rgba::blend`: alpha 0 leaves the bottom pixel, alpha 255 replaces it);
/// all other bottom pixels are untouched. Shape is unchanged. The result is
/// named by `overlay_result`; the partially transparent case is not stated.
#[verifier::external_body]
pub(crate) fn overlay(bottom: &mut Image, top: &Image, x: i64, y: i64)
    requires
        old(bottom).wf(),
        top.wf(),
    ensures
        final(bottom).wf(),
        final(bottom).w() == old(bottom).w(),
        final(bottom).h() == old(bottom).h(),
        final(bottom).bytes() == overlay_result(
            old(bottom).w(),
            old(bottom).h(),
            old(bottom).bytes(),
            top.w(),
            top.h(),
            top.bytes(),
            x as int,
            y as int,
        ),
        overlaid(old(bottom), final(bottom), top, x as int, y as int),
{
    let data = std::mem::take(&mut bottom.data);
    let mut base = image::RgbaImage::from_raw(bottom.width, bottom.height, data).expect("shape");
    let layer = image::RgbaImage::from_raw(top.width, top.height, top.data.clone()).expect("shape");
    image::imageops::overlay(&mut base, &layer, x, y);
    bottom.data = base.into_raw();
}

/// The resampling filters the pipeline uses (`image::imageops::FilterType`).
#[derive(Clone, Copy, Debug, PartialEq, Eq, Structural)]
pub enum ResizeFilter {
    Nearest,
    Triangle,
    Lanczos3,
}

/// What `image::imageops::resize` produces with the `Nearest` or `Triangle`
/// filter. Their kernels use only IEEE arithmetic, rounding and `abs`, so the
/// result depends on the arguments alone. (The `Lanczos3` kernel calls
/// `f32::sin`, whose precision std leaves unspecified, so it gets no name.)
pub uninterp spec fn resize_result(
    w: nat,
    h: nat,
    bytes: Seq<u8>,
    nw: nat,
    nh: nat,
    filter: ResizeFilter,
) -> Seq<u8>;

/// Every pixel of `out` is a pixel of `src`, copied unchanged.
pub open spec fn copies_pixels(src: &Image, out: &Image) -> bool {
    forall|x: int, y: int|
        #![trigger out.pixel(x, y)]
        out.in_bounds(x, y) ==> exists|sx: int, sy: int|
            src.in_bounds(sx, sy) && out.pixel(x, y) == #[trigger] src.pixel(sx, sy)
}

/// `image::imageops::resize` to `nw` x `nh`. The source returns a plain copy
/// when the shape is unchanged and a transparent canvas when the input is
/// empty; otherwise the resampled pixels are named by `resize_result` for the
/// `Nearest` and `Triangle` filters and left unsaid for `Lanczos3`. With
/// `Nearest` the kernel takes exactly one source pixel per output pixel with
/// weight 1, so each output pixel is a copy of a source pixel. Its
/// intermediate column pass allocates `w * nh` pixels, which must fit.
#[verifier::external_body]
pub(crate) fn resize(img: &Image, nw: u32, nh: u32, filter: ResizeFilter) -> (out: Image)
    requires
        img.wf(),
        nw * nh * 4 <= usize::MAX,
        img.w() * nh * 4 <= usize::MAX,
    ensures
        out.wf(),
        out.w() == nw,
        out.h() == nh,
        filter != ResizeFilter::Lanczos3 ==> out.bytes() == resize_result(
            img.w(),
            img.h(),
            img.bytes(),
            nw as nat,
            nh as nat,
            filter,
        ),
        img.w() == nw && img.h() == nh ==> out.bytes() == img.bytes(),
        filter == ResizeFilter::Nearest && img.w() > 0 && img.h() > 0 ==> copies_pixels(img, &out),
        img.w() == 0 || img.h() == 0 ==> forall|x: int, y: int|
            out.in_bounds(x, y) ==> #[trigger] out.pixel(x, y) == clear(),
{
    let base = image::RgbaImage::from_raw(img.width, img.height, img.data.clone()).expect("shape");
    let f = match filter {
        ResizeFilter::Nearest => image::imageops::FilterType::Nearest,
        ResizeFilter::Triangle => image::imageops::FilterType::Triangle,
        ResizeFilter::Lanczos3 => image::imageops::FilterType::Lanczos3,
    };
    let out = image::imageops::resize(&base, nw, nh, f);
    Image { width: out.width(), height: out.height(), data: out.into_raw() }
}

/// `image::imageops::crop_imm(..).to_image()`: the origin is clamped into the
/// image, the size to what is left of it, and the pixels are copied.
#[verifier::external_body]
pub(crate) fn crop(img: &Image, x: u32, y: u32, cw: u32, ch: u32) -> (out: Image)
    requires
        img.wf(),
    ensures
        out.wf(),
        out.w() == vstd::math::min(cw as int, img.w() - vstd::math::min(x as int, img.w() as int)),
        out.h() == vstd::math::min(ch as int, img.h() - vstd::math::min(y as int, img.h() as int)),
        forall|i: int, j: int|
            out.in_bounds(i, j) ==> #[trigger] out.pixel(i, j) == img.pixel(
                vstd::math::min(x as int, img.w() as int) + i,
                vstd::math::min(y as int, img.h() as int) + j,
            ),
{
    let base = image::RgbaImage::from_raw(img.width, img.height, img.data.clone()).expect("shape");
    let out = image::imageops::crop_imm(&base, x, y, cw, ch).to_image();
    Image { width: out.width(), height: out.height(), data: out.into_raw() }
}

/// `image::ImageError`, what the PNG encoder fails with; nothing inside it is
/// read here.
#[verifier::external_type_specification]
#[verifier::external_body]
pub struct ExImageError(image::ImageError);

/// What `image` produces when it writes an RGBA8 image as PNG into memory:
/// the PNG file, or `None` where its encoder refuses the image. The encoder
/// reads nothing but the image (no clock, environment or randomness) and an
/// in-memory writer cannot fail, so both depend on the image alone.
pub uninterp spec fn png_encoding(w: nat, h: nat, bytes: Seq<u8>) -> Option<Seq<u8>>;

/// `DynamicImage::write_to(.., ImageFormat::Png)` into memory: it succeeds
/// exactly where `png_encoding` names a file, and then returns that file; the
/// `png` encoder refuses an image with no columns or no rows. Which other
/// images it refuses is not stated.
#[verifier::external_body]
pub(crate) fn encode_png(img: &Image) -> (r: Result<Vec<u8>, image::ImageError>)
    requires
        img.wf(),
    ensures
        r is Ok <==> png_encoding(img.w(), img.h(), img.bytes()) is Some,
        r matches Ok(v) ==> png_encoding(img.w(), img.h(), img.bytes()) == Some(v@),
        img.w() == 0 || img.h() == 0 ==> r is Err,
{
    let base = image::RgbaImage::from_raw(img.width, img.height, img.data.clone()).expect("shape");
    let mut png: Vec<u8> = Vec::new();
    let mut cursor = std::io::Cursor::new(&mut png);
    match image::DynamicImage::ImageRgba8(base).write_to(&mut cursor, image::ImageFormat::Png) {
        Ok(()) => Ok(png),
        Err(e) => Err(e),
    }
}

} // verus!
