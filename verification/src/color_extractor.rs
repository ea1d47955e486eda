//! Color/Palette extractor: derives ambient background colors from an
//! image's pixels.
//!
//! Colors are kept in fixed-point per-mille channels: `1000` stands for a
//! full channel (1.0). The image itself is downsampled through the `image`
//! crate behind a trusted wrapper; everything after that — quadrant
//! partitioning, midtone filtering, averaging, desaturation and darkening —
//! is verified integer arithmetic over the plain pixel list.

use vstd::prelude::*;
use vstd::arithmetic::div_mod::{lemma_div_is_ordered, lemma_div_multiples_vanish};

use crate::text::dec_digits;
use crate::text::format_dec;
use crate::text::append_bytes;
use image::GenericImageView;

verus! {

#[verifier::external_type_specification]
#[verifier::external_body]
pub struct ExDynamicImage(image::DynamicImage);

/// The pixels of `img` downsampled to fit within `bw` x `bh`: row-major
/// `(x, y, red, green, blue)` entries.
pub uninterp spec fn downsampled(img: image::DynamicImage, bw: u32, bh: u32) -> Seq<
    (u32, u32, u8, u8, u8),
>;

/// Width of the downsampled frame.
pub uninterp spec fn down_w(img: image::DynamicImage, bw: u32, bh: u32) -> u32;

/// Height of the downsampled frame.
pub uninterp spec fn down_h(img: image::DynamicImage, bw: u32, bh: u32) -> u32;

/// Relies on `image::DynamicImage::resize` (scales to fit within the given
/// bounds, preserving aspect ratio; nearest-neighbor filter), on
/// `GenericImageView::width` / `height`, and on `GenericImageView::pixels`
/// (iterates the `width * height` pixels row by row, `x` fastest): the
/// downsampled frame is a function of the image and the bounds alone.
/// Nonzero bounds keep `resize`'s same-dimensions shortcut from handing a
/// zero-width image through to the pixel iterator, which would read out of
/// bounds.
#[verifier::external_body]
fn downsample_pixels(img: &image::DynamicImage, bw: u32, bh: u32) -> (r: (
    u32,
    u32,
    Vec<(u32, u32, u8, u8, u8)>,
))
    requires
        1 <= bw,
        1 <= bh,
    ensures
        r.0 == down_w(*img, bw, bh),
        r.1 == down_h(*img, bw, bh),
        r.2@ == downsampled(*img, bw, bh),
        r.2@.len() == r.0 * r.1,
        forall|i: int|
            0 <= i < r.2@.len() ==> {
                &&& (#[trigger] r.2@[i]).0 == i % r.0 as int
                &&& r.2@[i].1 == i / r.0 as int
            },
{
    let small = img.resize(bw, bh, image::imageops::FilterType::Nearest);
    let w = small.width();
    let h = small.height();
    let px: Vec<(u32, u32, u8, u8, u8)> = small.pixels().map(
        |p: (u32, u32, image::Rgba<u8>)| (p.0, p.1, p.2.0[0], p.2.0[1], p.2.0[2]),
    ).collect();
    (w, h, px)
}

/// A fixed-point color: per-mille channel values in `0 ..= 1000`.
#[derive(Debug, Clone, Copy, PartialEq, Eq, Structural)]
pub struct RGB {
    pub r: u32,
    pub g: u32,
    pub b: u32,
}

/// The color's channels as a triple.
pub open spec fn rgb_model(c: RGB) -> (int, int, int) {
    (c.r as int, c.g as int, c.b as int)
}

/// Channels lie in the per-mille range.
pub open spec fn rgb_wf(c: RGB) -> bool {
    c.r <= 1000 && c.g <= 1000 && c.b <= 1000
}

/// Channels darkened by `factor` per mille.
pub open spec fn darken_spec(c: (int, int, int), factor: int) -> (int, int, int) {
    (c.0 * factor / 1000, c.1 * factor / 1000, c.2 * factor / 1000)
}

/// The greatest of three values.
pub open spec fn max3(a: int, b: int, c: int) -> int {
    if a >= b && a >= c {
        a
    } else if b >= c {
        b
    } else {
        c
    }
}

/// Saturation scaled by `(1000 - amount)` per mille, hue and value kept:
/// every channel moves toward the value channel `v = max(r, g, b)` by the
/// complement of the kept fraction, `ch' = v - (v - ch) * (1000 - amount) / 1000` —
/// the standard RGB-to-HSV round trip with `s' = s * (1 - amount)`.
pub open spec fn desaturate_spec(c: (int, int, int), amount: int) -> (int, int, int) {
    let v = max3(c.0, c.1, c.2);
    let keep = 1000 - amount;
    (v - (v - c.0) * keep / 1000, v - (v - c.1) * keep / 1000, v - (v - c.2) * keep / 1000)
}

/// CSS text of a color: `rgb(R, G, B)` with 8-bit channel values.
pub open spec fn css_bytes(c: (int, int, int)) -> Seq<u8> {
    seq![114u8, 103u8, 98u8, 40u8] + dec_digits(c.0 * 255 / 1000) + seq![44u8, 32u8] + dec_digits(
        c.1 * 255 / 1000,
    ) + seq![44u8, 32u8] + dec_digits(c.2 * 255 / 1000) + seq![41u8]
}

impl RGB {
    /// A color from per-mille channel values.
    pub fn new(r: u32, g: u32, b: u32) -> (c: RGB)
        ensures
            c.r == r && c.g == g && c.b == b,
    {
        RGB { r, g, b }
    }

    /// The color's CSS text, `rgb(R, G, B)`, as ASCII bytes.
    pub fn to_css(&self) -> (s: Vec<u8>)
        ensures
            s@ == css_bytes(rgb_model(*self)),
    {
        let mut s: Vec<u8> = Vec::new();
        s.push(114);
        s.push(103);
        s.push(98);
        s.push(40);
        let d0 = format_dec((self.r as u64) * 255 / 1000);
        append_bytes(&mut s, &d0);
        s.push(44);
        s.push(32);
        let d1 = format_dec((self.g as u64) * 255 / 1000);
        append_bytes(&mut s, &d1);
        s.push(44);
        s.push(32);
        let d2 = format_dec((self.b as u64) * 255 / 1000);
        append_bytes(&mut s, &d2);
        s.push(41);
        assert(s@ =~= css_bytes(rgb_model(*self)));
        s
    }

    /// The color scaled down by `factor` per mille.
    pub fn darken(&self, factor: u32) -> (c: RGB)
        requires
            factor <= 1000,
            rgb_wf(*self),
        ensures
            rgb_model(c) == darken_spec(rgb_model(*self), factor as int),
            rgb_wf(c),
    {
        proof {
            lemma_scale_le(self.r as int, factor as int);
            lemma_scale_le(self.g as int, factor as int);
            lemma_scale_le(self.b as int, factor as int);
        }
        RGB {
            r: self.r * factor / 1000,
            g: self.g * factor / 1000,
            b: self.b * factor / 1000,
        }
    }

    /// The color with its saturation scaled by `(1000 - amount)` per mille.
    pub fn desaturate(&self, amount: u32) -> (c: RGB)
        requires
            amount <= 1000,
            rgb_wf(*self),
        ensures
            rgb_model(c) == desaturate_spec(rgb_model(*self), amount as int),
            rgb_wf(c),
    {
        let v = if self.r >= self.g && self.r >= self.b {
            self.r
        } else if self.g >= self.b {
            self.g
        } else {
            self.b
        };
        assert(v as int == max3(self.r as int, self.g as int, self.b as int));
        let keep = 1000 - amount;
        proof {
            lemma_scale_le((v - self.r) as int, keep as int);
            lemma_scale_le((v - self.g) as int, keep as int);
            lemma_scale_le((v - self.b) as int, keep as int);
        }
        RGB {
            r: v - (v - self.r) * keep / 1000,
            g: v - (v - self.g) * keep / 1000,
            b: v - (v - self.b) * keep / 1000,
        }
    }
}

/// Scaling by at most 1000 per mille does not increase a value.
proof fn lemma_scale_le(x: int, f: int)
    requires
        x >= 0,
        0 <= f <= 1000,
    ensures
        0 <= x * f / 1000 <= x,
{
    assert(0 <= x * f <= x * 1000) by (nonlinear_arith)
        requires x >= 0 && 0 <= f <= 1000;
    lemma_div_is_ordered(0, x * f, 1000);
    lemma_div_is_ordered(x * f, x * 1000, 1000);
    lemma_div_multiples_vanish(x, 1000);
    assert((1000 * x) / 1000 == x);
    assert(x * 1000 == 1000 * x);
}

/// A 4-corner ambient palette, one color per image quadrant.
#[derive(Debug, Clone, Copy, PartialEq, Eq, Structural)]
pub struct Palette {
    pub top_left: RGB,
    pub top_right: RGB,
    pub bottom_left: RGB,
    pub bottom_right: RGB,
}

/// The quadrant of a pixel at `(px, py)` against midpoint `(mx, my)`:
/// 0 top-left, 1 top-right, 2 bottom-left, 3 bottom-right.
pub open spec fn quad_of(px: int, py: int, mx: int, my: int) -> int {
    if px < mx && py < my {
        0
    } else if px >= mx && py < my {
        1
    } else if px < mx {
        2
    } else {
        3
    }
}

/// Channel sums and pixel count of quadrant `q` over the pixel list.
pub open spec fn quad_sums(ps: Seq<(u32, u32, u8, u8, u8)>, mx: int, my: int, q: int) -> (
    int,
    int,
    int,
    int,
)
    decreases ps.len(),
{
    if ps.len() == 0 {
        (0, 0, 0, 0)
    } else {
        let rest = quad_sums(ps.drop_last(), mx, my, q);
        let p = ps.last();
        if quad_of(p.0 as int, p.1 as int, mx, my) == q {
            (rest.0 + p.2, rest.1 + p.3, rest.2 + p.4, rest.3 + 1)
        } else {
            rest
        }
    }
}

/// A pixel's channel sum lies strictly inside the midtone band: neither
/// near-black nor near-white.
pub open spec fn is_midtone(p: (u32, u32, u8, u8, u8)) -> bool {
    50 <= p.2 + p.3 + p.4 <= 700
}

/// Channel sums and count of the midtone pixels.
pub open spec fn midtone_sums(ps: Seq<(u32, u32, u8, u8, u8)>) -> (int, int, int, int)
    decreases ps.len(),
{
    if ps.len() == 0 {
        (0, 0, 0, 0)
    } else {
        let rest = midtone_sums(ps.drop_last());
        let p = ps.last();
        if is_midtone(p) {
            (rest.0 + p.2, rest.1 + p.3, rest.2 + p.4, rest.3 + 1)
        } else {
            rest
        }
    }
}

/// Per-mille channels of an 8-bit average.
pub open spec fn avg_permille(sums: (int, int, int, int)) -> (int, int, int) {
    ((sums.0 / sums.3) * 1000 / 255, (sums.1 / sums.3) * 1000 / 255, (sums.2 / sums.3) * 1000
        / 255)
}

/// One palette corner: the quadrant's average, lightly desaturated and
/// moderately darkened, or the neutral default for an empty quadrant.
pub open spec fn corner_spec(ps: Seq<(u32, u32, u8, u8, u8)>, mx: int, my: int, q: int) -> (
    int,
    int,
    int,
) {
    let s = quad_sums(ps, mx, my, q);
    if s.3 > 0 {
        darken_spec(desaturate_spec(avg_permille(s), 100), 650)
    } else {
        (200, 150, 200)
    }
}

/// The dominant background color of a pixel list: the midtone average,
/// strongly desaturated and darkened, or the neutral brownish default when
/// no pixel qualifies.
pub open spec fn dominant_spec(ps: Seq<(u32, u32, u8, u8, u8)>) -> (int, int, int) {
    let s = midtone_sums(ps);
    if s.3 > 0 {
        darken_spec(desaturate_spec(avg_permille(s), 600), 300)
    } else {
        (400, 300, 350)
    }
}

/// The palette is a pure function of the image and the downsampling bounds:
/// any two results that meet `extract_palette`'s contract for the same image
/// are identical.
pub proof fn lemma_palette_deterministic(img: image::DynamicImage, p1: Palette, p2: Palette)
    requires
        ({
            let ps = downsampled(img, 80, 80);
            let mx = down_w(img, 80, 80) as int / 2;
            let my = down_h(img, 80, 80) as int / 2;
            &&& rgb_model(p1.top_left) == corner_spec(ps, mx, my, 0)
            &&& rgb_model(p1.top_right) == corner_spec(ps, mx, my, 1)
            &&& rgb_model(p1.bottom_left) == corner_spec(ps, mx, my, 2)
            &&& rgb_model(p1.bottom_right) == corner_spec(ps, mx, my, 3)
            &&& rgb_model(p2.top_left) == corner_spec(ps, mx, my, 0)
            &&& rgb_model(p2.top_right) == corner_spec(ps, mx, my, 1)
            &&& rgb_model(p2.bottom_left) == corner_spec(ps, mx, my, 2)
            &&& rgb_model(p2.bottom_right) == corner_spec(ps, mx, my, 3)
        }),
    ensures
        p1 == p2,
{
}

/// Every pixel belongs to exactly one quadrant.
pub proof fn lemma_quadrant_partition(px: int, py: int, mx: int, my: int)
    ensures
        0 <= quad_of(px, py, mx, my) <= 3,
        quad_of(px, py, mx, my) == 0 <==> (px < mx && py < my),
        quad_of(px, py, mx, my) == 1 <==> (px >= mx && py < my),
        quad_of(px, py, mx, my) == 2 <==> (px < mx && py >= my),
        quad_of(px, py, mx, my) == 3 <==> (px >= mx && py >= my),
{
}

/// The four quadrant pixel counts sum to the total pixel count.
pub proof fn lemma_quadrant_counts(ps: Seq<(u32, u32, u8, u8, u8)>, mx: int, my: int)
    ensures
        quad_sums(ps, mx, my, 0).3 + quad_sums(ps, mx, my, 1).3 + quad_sums(ps, mx, my, 2).3
            + quad_sums(ps, mx, my, 3).3 == ps.len(),
    decreases ps.len(),
{
    if ps.len() > 0 {
        lemma_quadrant_counts(ps.drop_last(), mx, my);
        let p = ps.last();
        lemma_quadrant_partition(p.0 as int, p.1 as int, mx, my);
    }
}

/// Exec channel sums and count of quadrant `q`.
fn quad_sums_exec(ps: &Vec<(u32, u32, u8, u8, u8)>, mx: u32, my: u32, q: u8) -> (r: (
    u128,
    u128,
    u128,
    u128,
))
    requires
        q <= 3,
    ensures
        (r.0 as int, r.1 as int, r.2 as int, r.3 as int) == quad_sums(
            ps@,
            mx as int,
            my as int,
            q as int,
        ),
        r.0 <= r.3 * 255 && r.1 <= r.3 * 255 && r.2 <= r.3 * 255,
        r.3 <= ps@.len(),
{
    let n = ps.len();
    let mut sr: u128 = 0;
    let mut sg: u128 = 0;
    let mut sb: u128 = 0;
    let mut cnt: u128 = 0;
    let mut i: usize = 0;
    while i < n
        invariant
            i <= n,
            n == ps@.len(),
            q <= 3,
            (sr as int, sg as int, sb as int, cnt as int) == quad_sums(
                ps@.take(i as int),
                mx as int,
                my as int,
                q as int,
            ),
            sr <= cnt * 255 && sg <= cnt * 255 && sb <= cnt * 255,
            cnt <= i,
        decreases n - i,
    {
        let p = ps[i];
        let pq: u8 = if p.0 < mx && p.1 < my {
            0
        } else if p.0 >= mx && p.1 < my {
            1
        } else if p.0 < mx {
            2
        } else {
            3
        };
        assert(pq as int == quad_of(p.0 as int, p.1 as int, mx as int, my as int));
        proof {
            assert(ps@.take(i + 1).drop_last() =~= ps@.take(i as int));
            assert(ps@.take(i + 1).last() == ps@[i as int]);
        }
        if pq == q {
            sr = sr + p.2 as u128;
            sg = sg + p.3 as u128;
            sb = sb + p.4 as u128;
            cnt = cnt + 1;
        }
        i = i + 1;
    }
    assert(ps@.take(n as int) =~= ps@);
    (sr, sg, sb, cnt)
}

/// Exec channel sums and count of the midtone pixels.
fn midtone_sums_exec(ps: &Vec<(u32, u32, u8, u8, u8)>) -> (r: (u128, u128, u128, u128))
    ensures
        (r.0 as int, r.1 as int, r.2 as int, r.3 as int) == midtone_sums(ps@),
        r.0 <= r.3 * 255 && r.1 <= r.3 * 255 && r.2 <= r.3 * 255,
        r.3 <= ps@.len(),
{
    let n = ps.len();
    let mut sr: u128 = 0;
    let mut sg: u128 = 0;
    let mut sb: u128 = 0;
    let mut cnt: u128 = 0;
    let mut i: usize = 0;
    while i < n
        invariant
            i <= n,
            n == ps@.len(),
            (sr as int, sg as int, sb as int, cnt as int) == midtone_sums(ps@.take(i as int)),
            sr <= cnt * 255 && sg <= cnt * 255 && sb <= cnt * 255,
            cnt <= i,
        decreases n - i,
    {
        let p = ps[i];
        let sum: u32 = p.2 as u32 + p.3 as u32 + p.4 as u32;
        proof {
            assert(ps@.take(i + 1).drop_last() =~= ps@.take(i as int));
            assert(ps@.take(i + 1).last() == ps@[i as int]);
        }
        if 50 <= sum && sum <= 700 {
            assert(is_midtone(ps@[i as int]));
            sr = sr + p.2 as u128;
            sg = sg + p.3 as u128;
            sb = sb + p.4 as u128;
            cnt = cnt + 1;
        } else {
            assert(!is_midtone(ps@[i as int]));
        }
        i = i + 1;
    }
    assert(ps@.take(n as int) =~= ps@);
    (sr, sg, sb, cnt)
}

/// Per-mille average channels of nonempty sums.
fn avg_exec(sums: (u128, u128, u128, u128)) -> (c: (u32, u32, u32))
    requires
        sums.3 > 0,
        sums.0 <= sums.3 * 255,
        sums.1 <= sums.3 * 255,
        sums.2 <= sums.3 * 255,
    ensures
        (c.0 as int, c.1 as int, c.2 as int) == avg_permille(
            (sums.0 as int, sums.1 as int, sums.2 as int, sums.3 as int),
        ),
        c.0 <= 1000 && c.1 <= 1000 && c.2 <= 1000,
{
    proof {
        lemma_avg_channel(sums.0 as int, sums.3 as int);
        lemma_avg_channel(sums.1 as int, sums.3 as int);
        lemma_avg_channel(sums.2 as int, sums.3 as int);
    }
    let a0 = (sums.0 / sums.3) * 1000 / 255;
    let a1 = (sums.1 / sums.3) * 1000 / 255;
    let a2 = (sums.2 / sums.3) * 1000 / 255;
    (a0 as u32, a1 as u32, a2 as u32)
}

/// An averaged 8-bit channel scaled to per mille stays within range.
proof fn lemma_avg_channel(sum: int, count: int)
    requires
        count > 0,
        0 <= sum <= count * 255,
    ensures
        0 <= sum / count <= 255,
        0 <= (sum / count) * 1000 / 255 <= 1000,
{
    lemma_div_is_ordered(0, sum, count);
    lemma_div_is_ordered(sum, count * 255, count);
    lemma_div_multiples_vanish(255, count);
    assert((count * 255) / count == 255);
    let a = sum / count;
    assert(0 <= a * 1000 <= 255 * 1000) by (nonlinear_arith)
        requires 0 <= a <= 255;
    lemma_div_is_ordered(0, a * 1000, 255);
    lemma_div_is_ordered(a * 1000, (255 * 1000) as int, 255);
    lemma_div_multiples_vanish(1000, 255);
    assert((255 * 1000) / 255 == 1000);
}

/// Derives ambient colors from a decoded image.
pub struct ColorExtractor;

impl ColorExtractor {
    /// A 4-corner palette for gradient backgrounds: the image is downsampled
    /// to fit 80 x 80, its pixels are partitioned into quadrants against the
    /// midpoint, and each quadrant's average color is lightly desaturated
    /// and moderately darkened. An empty quadrant keeps the neutral default.
    /// `None` exactly when the downsampled frame is degenerate.
    pub fn extract_palette(img: &image::DynamicImage) -> (r: Option<Palette>)
        ensures
            r is Some <==> (down_w(*img, 80, 80) > 0 && down_h(*img, 80, 80) > 0),
            r matches Some(p) ==> {
                let ps = downsampled(*img, 80, 80);
                let mx = down_w(*img, 80, 80) as int / 2;
                let my = down_h(*img, 80, 80) as int / 2;
                &&& rgb_model(p.top_left) == corner_spec(ps, mx, my, 0)
                &&& rgb_model(p.top_right) == corner_spec(ps, mx, my, 1)
                &&& rgb_model(p.bottom_left) == corner_spec(ps, mx, my, 2)
                &&& rgb_model(p.bottom_right) == corner_spec(ps, mx, my, 3)
                &&& rgb_wf(p.top_left) && rgb_wf(p.top_right) && rgb_wf(p.bottom_left)
                    && rgb_wf(p.bottom_right)
            },
    {
        let (w, h, px) = downsample_pixels(img, 80, 80);
        if w == 0 || h == 0 {
            return None;
        }
        let mx = w / 2;
        let my = h / 2;
        let tl = Self::corner(&px, mx, my, 0);
        let tr = Self::corner(&px, mx, my, 1);
        let bl = Self::corner(&px, mx, my, 2);
        let br = Self::corner(&px, mx, my, 3);
        Some(
            Palette {
                top_left: tl,
                top_right: tr,
                bottom_left: bl,
                bottom_right: br,
            },
        )
    }

    /// One palette corner.
    fn corner(px: &Vec<(u32, u32, u8, u8, u8)>, mx: u32, my: u32, q: u8) -> (c: RGB)
        requires
            q <= 3,
        ensures
            rgb_model(c) == corner_spec(px@, mx as int, my as int, q as int),
            rgb_wf(c),
    {
        let sums = quad_sums_exec(px, mx, my, q);
        if sums.3 > 0 {
            let avg = avg_exec(sums);
            let base = RGB { r: avg.0, g: avg.1, b: avg.2 };
            base.desaturate(100).darken(650)
        } else {
            RGB { r: 200, g: 150, b: 200 }
        }
    }

    /// The dominant background color: the image is downsampled to fit
    /// 150 x 150, near-black and near-white pixels are excluded, and the
    /// remaining average is strongly desaturated and darkened. The neutral
    /// brownish default when no pixel qualifies.
    pub fn extract_dominant_color(img: &image::DynamicImage) -> (c: RGB)
        ensures
            rgb_model(c) == dominant_spec(downsampled(*img, 150, 150)),
            rgb_wf(c),
    {
        let (_w, _h, px) = downsample_pixels(img, 150, 150);
        let sums = midtone_sums_exec(&px);
        if sums.3 > 0 {
            let avg = avg_exec(sums);
            let base = RGB { r: avg.0, g: avg.1, b: avg.2 };
            base.desaturate(600).darken(300)
        } else {
            RGB { r: 400, g: 300, b: 350 }
        }
    }
}

} // verus!
