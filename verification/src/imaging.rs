use vstd::prelude::*;

use crate::geometry::{clamp_roi, spec_clamp_roi, BBox};
use crate::roi::{
    byte_square_sum, byte_sum, extract_roi, lemma_full_frame_reads, roi_spec, template_sums,
    TemplateSums,
};

verus! {

/// Catmull-Rom resampling of a `w` x `h` RGB image to `nw` x `nh`, as
/// `image::imageops::resize` with `FilterType::CatmullRom` computes it.
pub uninterp spec fn catmull_rom_resized(pixels: Seq<u8>, w: u32, h: u32, nw: u32, nh: u32) -> Seq<
    u8,
>;

/// Crops `region` out of a `w` x `h` RGB image with
/// `image::imageops::crop_imm(..).to_image()`. For a region inside the image
/// this copies its pixels row by row, which is `roi_spec`.
#[verifier::external_body]
fn crop_rgb(rgb: &[u8], w: u32, h: u32, region: BBox) -> (out: Vec<u8>)
    requires
        rgb@.len() == w * h * 3,
        region.right() <= w,
        region.bottom() <= h,
    ensures
        out@ == roi_spec(rgb@, w, h, region),
{
    let img = image::RgbImage::from_raw(w, h, rgb.to_vec()).unwrap();
    image::imageops::crop_imm(&img, region.x, region.y, region.width, region.height).to_image().into_raw()
}

/// Resizes a `w` x `h` RGB image to `nw` x `nh` with
/// `image::imageops::resize` and `FilterType::CatmullRom`. The pixel values
/// are named, not stated; stated are the output size and that equal sizes
/// copy the image unchanged, as the function's source does.
#[verifier::external_body]
fn resize_rgb(rgb: &[u8], w: u32, h: u32, nw: u32, nh: u32) -> (out: Vec<u8>)
    requires
        rgb@.len() == w * h * 3,
        nw * nh * 3 <= usize::MAX,
        w * nh * 4 <= usize::MAX,
    ensures
        out@ == catmull_rom_resized(rgb@, w, h, nw, nh),
        out@.len() == nw * nh * 3,
        w > 0 && h > 0 && nw == w && nh == h ==> out@ == rgb@,
{
    let img = image::RgbImage::from_raw(w, h, rgb.to_vec()).unwrap();
    image::imageops::resize(&img, nw, nh, image::imageops::FilterType::CatmullRom).into_raw()
}

/// A template cut from its image: the region used, its bytes, and its sums.
pub struct PreparedTemplate {
    pub region: BBox,
    pub pixels: Vec<u8>,
    pub sums: TemplateSums,
}

/// Prepares a template at the image's own resolution: the region clamped to
/// the image and the image's pixels in it.
pub fn crop_template(rgb: &[u8], img_w: u32, img_h: u32, roi: BBox) -> (t: PreparedTemplate)
    requires
        rgb@.len() == img_w * img_h * 3,
        spec_clamp_roi(roi, img_w, img_h).width * spec_clamp_roi(roi, img_w, img_h).height * 3
            <= usize::MAX,
    ensures
        t.region == spec_clamp_roi(roi, img_w, img_h),
        t.pixels@ == roi_spec(rgb@, img_w, img_h, t.region),
        t.sums.len == t.pixels@.len(),
        t.sums.sum == byte_sum(t.pixels@),
        t.sums.square_sum == byte_square_sum(t.pixels@),
{
    let region = clamp_roi(roi, img_w, img_h);
    proof {
        lemma_full_frame_reads(rgb@.len() as int, img_w as int, img_h as int, region);
    }
    let pixels = extract_roi(rgb, img_w, img_h, region);
    let sums = template_sums(pixels.as_slice());
    PreparedTemplate { region, pixels, sums }
}

/// Prepares a template for a video of another resolution: the `source`
/// region of the image is cut out and resampled to the size of `target`,
/// the region where it is to be found in the video.
pub fn crop_and_resize_template(
    rgb: &[u8],
    img_w: u32,
    img_h: u32,
    source: BBox,
    target: BBox,
) -> (t: PreparedTemplate)
    requires
        rgb@.len() == img_w * img_h * 3,
        source.right() <= img_w,
        source.bottom() <= img_h,
        target.width * target.height * 3 <= usize::MAX,
        source.width * target.height * 4 <= usize::MAX,
    ensures
        t.region == target,
        t.pixels@ == catmull_rom_resized(
            roi_spec(rgb@, img_w, img_h, source),
            source.width,
            source.height,
            target.width,
            target.height,
        ),
        t.pixels@.len() == target.width * target.height * 3,
        t.sums.len == t.pixels@.len(),
        t.sums.sum == byte_sum(t.pixels@),
        t.sums.square_sum == byte_square_sum(t.pixels@),
{
    let cropped = crop_rgb(rgb, img_w, img_h, source);
    let pixels = resize_rgb(
        cropped.as_slice(),
        source.width,
        source.height,
        target.width,
        target.height,
    );
    let sums = template_sums(pixels.as_slice());
    PreparedTemplate { region: target, pixels, sums }
}

/// Luma of an RGB pixel with the weights 77, 150, 29 out of 256.
pub open spec fn luma(r: u8, g: u8, b: u8) -> u8 {
    ((r * 77 + g * 150 + b * 29) / 256) as u8
}

/// A gray pixel keeps its level, a brighter pixel is never darker, and the
/// weights are 77, 150 and 29 out of 256 for red, green and blue.
pub proof fn law_luma(r: u8, g: u8, b: u8, r2: u8, g2: u8, b2: u8)
    ensures
        luma(r, r, r) == r,
        r <= r2 && g <= g2 && b <= b2 ==> luma(r, g, b) <= luma(r2, g2, b2),
        luma(r, g, b) == (77 * (r as int) + 150 * (g as int) + 29 * (b as int)) / 256,
{
    assert((r * 77 + r * 150 + r * 29) / 256 == r) by (nonlinear_arith);
    assert(r <= r2 && g <= g2 && b <= b2 ==> (r * 77 + g * 150 + b * 29) / 256 <= (r2 * 77 + g2
        * 150 + b2 * 29) / 256) by (nonlinear_arith);
    assert((r * 77 + g * 150 + b * 29) / 256 <= 255) by (nonlinear_arith);
    assert((r2 * 77 + g2 * 150 + b2 * 29) / 256 <= 255) by (nonlinear_arith);
}

/// Gray levels of a packed RGB buffer, one per pixel.
pub open spec fn gray_spec(rgb: Seq<u8>) -> Seq<u8> {
    Seq::new(rgb.len() / 3, |i: int| luma(rgb[3 * i], rgb[3 * i + 1], rgb[3 * i + 2]))
}

/// Converts packed RGB pixels to gray levels.
pub fn gray_levels(rgb: &[u8]) -> (g: Vec<u8>)
    requires
        rgb@.len() % 3 == 0,
    ensures
        g@ == gray_spec(rgb@),
{
    let len = rgb.len();
    let n = len / 3;
    let mut g: Vec<u8> = Vec::with_capacity(n);
    let mut i: usize = 0;
    while i < n
        invariant
            len == rgb@.len(),
            n == rgb@.len() / 3,
            rgb@.len() % 3 == 0,
            i <= n,
            g@.len() == i,
            forall|k: int| 0 <= k < i ==> #[trigger] g@[k] == luma(rgb@[3 * k], rgb@[3 * k + 1], rgb@[3 * k + 2]),
        decreases n - i,
    {
        let r = rgb[3 * i] as u32;
        let gg = rgb[3 * i + 1] as u32;
        let b = rgb[3 * i + 2] as u32;
        let s: u32 = r * 77 + gg * 150 + b * 29;
        proof {
            assert(s >> 8 == s / 256) by (bit_vector);
        }
        let v = (s >> 8) as u8;
        g.push(v);
        i = i + 1;
    }
    proof {
        assert(g@ =~= gray_spec(rgb@));
    }
    g
}

/// The least and greatest gray level, starting from 255 and 0.
pub open spec fn level_range(s: Seq<u8>) -> (u8, u8)
    decreases s.len(),
{
    if s.len() == 0 {
        (255, 0)
    } else {
        let (lo, hi) = level_range(s.drop_last());
        let v = s.last();
        (if v < lo {
            v
        } else {
            lo
        }, if v > hi {
            v
        } else {
            hi
        })
    }
}

/// The darkest and brightest gray level (255 and 0 for no pixels).
pub fn min_max_levels(gray: &[u8]) -> (r: (u8, u8))
    ensures
        r == level_range(gray@),
{
    let mut lo: u8 = 255;
    let mut hi: u8 = 0;
    let mut i: usize = 0;
    while i < gray.len()
        invariant
            i <= gray@.len(),
            (lo, hi) == level_range(gray@.take(i as int)),
        decreases gray@.len() - i,
    {
        proof {
            assert(gray@.take(i + 1).drop_last() =~= gray@.take(i as int));
        }
        let g = gray[i];
        if g < lo {
            lo = g;
        }
        if g > hi {
            hi = g;
        }
        i = i + 1;
    }
    proof {
        assert(gray@.take(gray@.len() as int) =~= gray@);
    }
    (lo, hi)
}

/// The range is the extreme levels: no level lies outside it, and for a
/// non-empty buffer both ends are levels that occur.
pub proof fn law_level_range_extremes(s: Seq<u8>)
    ensures
        forall|k: int| 0 <= k < s.len() ==> level_range(s).0 <= #[trigger] s[k] <= level_range(s).1,
        s.len() > 0 ==> s.contains(level_range(s).0) && s.contains(level_range(s).1),
    decreases s.len(),
{
    if s.len() > 0 {
        let t = s.drop_last();
        law_level_range_extremes(t);
        assert forall|k: int| 0 <= k < s.len() implies level_range(s).0 <= #[trigger] s[k]
            <= level_range(s).1 by {
            if k < t.len() {
                assert(s[k] == t[k]);
            }
        }
        if t.len() > 0 {
            let (lo, hi) = level_range(t);
            if s.last() >= lo {
                let i = choose|i: int| 0 <= i < t.len() && t[i] == lo;
                assert(s[i] == lo);
            }
            if s.last() <= hi {
                let i = choose|i: int| 0 <= i < t.len() && t[i] == hi;
                assert(s[i] == hi);
            }
        }
        assert(s[s.len() - 1] == s.last());
    }
}

/// Pixel `(x, y)` of a packed RGBA image `w` pixels wide is part of the
/// drawn template: not near-white and, when the image has alpha, not fully
/// transparent.
pub open spec fn drawn_pixel(rgba: Seq<u8>, w: int, has_alpha: bool, x: int, y: int) -> bool {
    let o = (y * w + x) * 4;
    let near_white = rgba[o] >= 250 && rgba[o + 1] >= 250 && rgba[o + 2] >= 250;
    !near_white && (!has_alpha || rgba[o + 3] > 0)
}

/// A pixel counts as drawn when one of its colour channels is below 250 and,
/// in an image with alpha, it is not fully transparent.
pub proof fn law_drawn_pixel(rgba: Seq<u8>, w: int, has_alpha: bool, x: int, y: int)
    ensures
        ({
            let o = (y * w + x) * 4;
            drawn_pixel(rgba, w, has_alpha, x, y) <==> ((rgba[o] < 250 || rgba[o + 1] < 250
                || rgba[o + 2] < 250) && (!has_alpha || rgba[o + 3] != 0))
        }),
{
}

proof fn lemma_rgba_index(w: int, h: int, x: int, y: int)
    requires
        0 <= x < w,
        0 <= y < h,
    ensures
        0 <= (y * w + x) * 4,
        (y * w + x) * 4 + 4 <= w * h * 4,
{
    assert(0 <= (y * w + x) * 4 && (y * w + x) * 4 + 4 <= w * h * 4) by (nonlinear_arith)
        requires
            0 <= x < w,
            0 <= y < h,
    ;
}

/// The bounding box of the drawn pixels of a `w` x `h` RGBA image, or
/// `None` when every pixel is near-white or transparent.
pub fn drawn_bbox(rgba: &[u8], w: u32, h: u32, has_alpha: bool) -> (r: Option<BBox>)
    requires
        rgba@.len() == w * h * 4,
    ensures
        r is None <==> !exists|x: int, y: int|
            0 <= x < w && 0 <= y < h && #[trigger] drawn_pixel(rgba@, w as int, has_alpha, x, y),
        r matches Some(b) ==> {
            &&& b.width >= 1 && b.height >= 1 && b.right() <= w && b.bottom() <= h
            &&& forall|x: int, y: int|
                0 <= x < w && 0 <= y < h && #[trigger] drawn_pixel(rgba@, w as int, has_alpha, x, y)
                    ==> b.contains(x, y)
            &&& exists|y: int| 0 <= y < h && #[trigger] drawn_pixel(rgba@, w as int, has_alpha, b.x as int, y)
            &&& exists|y: int| 0 <= y < h && #[trigger] drawn_pixel(rgba@, w as int, has_alpha, b.right() - 1, y)
            &&& exists|x: int| 0 <= x < w && #[trigger] drawn_pixel(rgba@, w as int, has_alpha, x, b.y as int)
            &&& exists|x: int| 0 <= x < w && #[trigger] drawn_pixel(rgba@, w as int, has_alpha, x, b.bottom() - 1)
        },
{
    let ghost gw = w as int;
    let len = rgba.len();
    let mut x_min: u32 = u32::MAX;
    let mut x_max: u32 = 0;
    let mut y_min: u32 = u32::MAX;
    let mut y_max: u32 = 0;
    let mut found = false;
    let mut y: u32 = 0;
    while y < h
        invariant
            rgba@.len() == w * h * 4,
            len == rgba@.len(),
            y <= h,
            gw == w as int,
            found <==> exists|px: int, py: int|
                0 <= px < w && 0 <= py < y && #[trigger] drawn_pixel(rgba@, gw, has_alpha, px, py),
            forall|px: int, py: int|
                0 <= px < w && 0 <= py < y && #[trigger] drawn_pixel(rgba@, gw, has_alpha, px, py)
                    ==> x_min <= px <= x_max && y_min <= py <= y_max,
            found ==> x_max < w && y_max < y && x_min <= x_max && y_min <= y_max,
            found ==> exists|py: int| 0 <= py < y && #[trigger] drawn_pixel(rgba@, gw, has_alpha, x_min as int, py),
            found ==> exists|py: int| 0 <= py < y && #[trigger] drawn_pixel(rgba@, gw, has_alpha, x_max as int, py),
            found ==> exists|px: int| 0 <= px < w && #[trigger] drawn_pixel(rgba@, gw, has_alpha, px, y_min as int),
            found ==> exists|px: int| 0 <= px < w && #[trigger] drawn_pixel(rgba@, gw, has_alpha, px, y_max as int),
        decreases h - y,
    {
        let mut x: u32 = 0;
        while x < w
            invariant
                rgba@.len() == w * h * 4,
                len == rgba@.len(),
                y < h,
                x <= w,
                gw == w as int,
                found <==> (exists|px: int, py: int|
                    0 <= px < w && 0 <= py < y && #[trigger] drawn_pixel(rgba@, gw, has_alpha, px, py))
                    || (exists|px: int| 0 <= px < x && #[trigger] drawn_pixel(rgba@, gw, has_alpha, px, y as int)),
                forall|px: int, py: int|
                    ((0 <= px < w && 0 <= py < y) || (0 <= px < x && py == y)) && #[trigger] drawn_pixel(
                        rgba@,
                        gw,
                        has_alpha,
                        px,
                        py,
                    ) ==> x_min <= px <= x_max && y_min <= py <= y_max,
                found ==> x_max < w && y_max <= y && x_min <= x_max && y_min <= y_max,
                found ==> exists|py: int| 0 <= py <= y && #[trigger] drawn_pixel(rgba@, gw, has_alpha, x_min as int, py),
                found ==> exists|py: int| 0 <= py <= y && #[trigger] drawn_pixel(rgba@, gw, has_alpha, x_max as int, py),
                found ==> exists|px: int| 0 <= px < w && #[trigger] drawn_pixel(rgba@, gw, has_alpha, px, y_min as int),
                found ==> exists|px: int| 0 <= px < w && #[trigger] drawn_pixel(rgba@, gw, has_alpha, px, y_max as int),
            decreases w - x,
        {
            proof {
                lemma_rgba_index(w as int, h as int, x as int, y as int);
                assert(0 <= y * w <= y * w + x) by (nonlinear_arith)
                    requires
                        0 <= x,
                        0 <= y,
                        0 <= w,
                ;
            }
            let o: usize = ((y as usize) * (w as usize) + x as usize) * 4;
            let r = rgba[o];
            let g = rgba[o + 1];
            let b = rgba[o + 2];
            let a = rgba[o + 3];
            let near_white = r >= 250 && g >= 250 && b >= 250;
            let drawn = if has_alpha {
                a > 0 && !near_white
            } else {
                !near_white
            };
            proof {
                assert(drawn == drawn_pixel(rgba@, gw, has_alpha, x as int, y as int));
            }
            if drawn {
                if x < x_min {
                    x_min = x;
                }
                if x > x_max {
                    x_max = x;
                }
                if y < y_min {
                    y_min = y;
                }
                if y > y_max {
                    y_max = y;
                }
                if !found {
                    x_min = x;
                    x_max = x;
                    y_min = y;
                    y_max = y;
                }
                found = true;
            }
            x = x + 1;
        }
        y = y + 1;
    }
    if found {
        let b = BBox { x: x_min, y: y_min, width: x_max - x_min + 1, height: y_max - y_min + 1 };
        proof {
            assert(b.right() - 1 == x_max);
            assert(b.bottom() - 1 == y_max);
            let py = choose|py: int| 0 <= py < y && #[trigger] drawn_pixel(rgba@, gw, has_alpha, x_max as int, py);
            assert(drawn_pixel(rgba@, w as int, has_alpha, b.right() - 1, py));
            let px = choose|px: int| 0 <= px < w && #[trigger] drawn_pixel(rgba@, gw, has_alpha, px, y_max as int);
            assert(drawn_pixel(rgba@, w as int, has_alpha, px, b.bottom() - 1));
        }
        Some(b)
    } else {
        None
    }
}

/// The part of `region` inside a `w` x `h` image, as `crop_imm` bounds it:
/// the corner is moved inside and the size cut at the image's edge.
pub open spec fn spec_crop_bounds(w: u32, h: u32, region: BBox) -> BBox {
    let x = if region.x <= w {
        region.x
    } else {
        w
    };
    let y = if region.y <= h {
        region.y
    } else {
        h
    };
    BBox {
        x,
        y,
        width: if region.width <= w - x {
            region.width
        } else {
            (w - x) as u32
        },
        height: if region.height <= h - y {
            region.height
        } else {
            (h - y) as u32
        },
    }
}

/// Cuts `region` out of a `w` x `h` RGB image, bounded to the image; returns
/// the bounded region and its pixels.
pub fn crop_image(rgb: &[u8], w: u32, h: u32, region: BBox) -> (out: (BBox, Vec<u8>))
    requires
        rgb@.len() == w * h * 3,
    ensures
        out.0 == spec_crop_bounds(w, h, region),
        out.1@ == roi_spec(rgb@, w, h, out.0),
{
    let x = if region.x <= w {
        region.x
    } else {
        w
    };
    let y = if region.y <= h {
        region.y
    } else {
        h
    };
    let cw = if region.width <= w - x {
        region.width
    } else {
        w - x
    };
    let ch = if region.height <= h - y {
        region.height
    } else {
        h - y
    };
    let bounded = BBox { x, y, width: cw, height: ch };
    let pixels = crop_rgb(rgb, w, h, bounded);
    (bounded, pixels)
}

/// Resamples a `w` x `h` RGB image to `nw` x `nh` with the Catmull-Rom
/// filter.
pub fn resize_image(rgb: &[u8], w: u32, h: u32, nw: u32, nh: u32) -> (out: Vec<u8>)
    requires
        rgb@.len() == w * h * 3,
        nw * nh * 3 <= usize::MAX,
        w * nh * 4 <= usize::MAX,
    ensures
        out@ == catmull_rom_resized(rgb@, w, h, nw, nh),
        out@.len() == nw * nh * 3,
        w > 0 && h > 0 && nw == w && nh == h ==> out@ == rgb@,
{
    resize_rgb(rgb, w, h, nw, nh)
}

} // verus!
