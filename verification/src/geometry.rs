use vstd::prelude::*;

verus! {

/// An axis-aligned rectangle of pixels: top-left corner and size.
#[derive(Clone, Copy, Debug, PartialEq, Eq, Structural)]
pub struct BBox {
    pub x: u32,
    pub y: u32,
    pub width: u32,
    pub height: u32,
}

impl BBox {
    /// One past the right-most column.
    pub open spec fn right(self) -> int {
        self.x + self.width
    }

    /// One past the bottom-most row.
    pub open spec fn bottom(self) -> int {
        self.y + self.height
    }

    /// The far edges are representable as `u32`.
    pub open spec fn edges_fit(self) -> bool {
        self.right() <= u32::MAX && self.bottom() <= u32::MAX
    }

    /// The point `(px, py)` lies inside the rectangle.
    pub open spec fn contains(self, px: int, py: int) -> bool {
        self.x <= px < self.right() && self.y <= py < self.bottom()
    }

    /// The smallest rectangle that covers both corners' extremes.
    pub open spec fn spec_union(self, other: BBox) -> BBox {
        let x = if self.x <= other.x { self.x } else { other.x };
        let y = if self.y <= other.y { self.y } else { other.y };
        let r = if self.right() >= other.right() { self.right() } else { other.right() };
        let b = if self.bottom() >= other.bottom() { self.bottom() } else { other.bottom() };
        BBox { x, y, width: (r - x) as u32, height: (b - y) as u32 }
    }

    pub fn new(x: u32, y: u32, width: u32, height: u32) -> (b: BBox)
        ensures
            b == (BBox { x, y, width, height }),
    {
        BBox { x, y, width, height }
    }

    /// The bounding rectangle of `self` and `other`.
    pub fn union(&self, other: &Self) -> (u: BBox)
        requires
            self.edges_fit(),
            other.edges_fit(),
        ensures
            u == self.spec_union(*other),
            u.edges_fit(),
    {
        let x_min = if self.x <= other.x { self.x } else { other.x };
        let y_min = if self.y <= other.y { self.y } else { other.y };
        let r1 = self.x + self.width;
        let r2 = other.x + other.width;
        let b1 = self.y + self.height;
        let b2 = other.y + other.height;
        let x_max = if r1 >= r2 { r1 } else { r2 };
        let y_max = if b1 >= b2 { b1 } else { b2 };
        BBox { x: x_min, y: y_min, width: x_max - x_min, height: y_max - y_min }
    }
}

/// The phase of the scan for clips.
#[derive(Clone, Copy, Debug, PartialEq, Eq, Structural)]
pub enum SearchState {
    SearchStart,
    SearchEnd,
}

/// The outcome of a match as read from the result screen.
#[derive(Clone, Copy, Debug, PartialEq, Eq, Structural)]
pub enum MatchResult {
    Win,
    Lose,
    Unknown,
    Skipped,
}

/// `inner` expressed in the coordinates of a crop whose corner is `outer`'s.
pub open spec fn spec_relative_to(inner: BBox, outer: BBox) -> BBox {
    BBox {
        x: (inner.x - outer.x) as u32,
        y: (inner.y - outer.y) as u32,
        width: inner.width,
        height: inner.height,
    }
}

/// The empty rectangle at the origin, used for an absent template region.
pub open spec fn spec_empty_box() -> BBox {
    BBox { x: 0, y: 0, width: 0, height: 0 }
}

/// The region streamed from the video and the two template regions inside it.
#[derive(Clone, Copy, Debug, PartialEq, Eq, Structural)]
pub struct ProbeLayout {
    pub crop: BBox,
    pub first: BBox,
    pub second: BBox,
}

pub open spec fn spec_probe_layout(first: Option<BBox>, second: Option<BBox>) -> Option<ProbeLayout> {
    match (first, second) {
        (None, None) => None,
        (Some(a), None) => Some(
            ProbeLayout { crop: a, first: spec_relative_to(a, a), second: spec_empty_box() },
        ),
        (None, Some(b)) => Some(
            ProbeLayout { crop: b, first: spec_empty_box(), second: spec_relative_to(b, b) },
        ),
        (Some(a), Some(b)) => {
            let u = a.spec_union(b);
            Some(
                ProbeLayout {
                    crop: u,
                    first: spec_relative_to(a, u),
                    second: spec_relative_to(b, u),
                },
            )
        },
    }
}

/// A present region has representable far edges.
pub open spec fn fits_if_present(b: Option<BBox>) -> bool {
    match b {
        Some(r) => r.edges_fit(),
        None => true,
    }
}

/// The crop to stream for one or two template regions, and each region
/// relative to that crop; `None` when neither region is given.
pub fn probe_layout(first: Option<BBox>, second: Option<BBox>) -> (l: Option<ProbeLayout>)
    requires
        fits_if_present(first),
        fits_if_present(second),
    ensures
        l == spec_probe_layout(first, second),
{
    let empty = BBox { x: 0, y: 0, width: 0, height: 0 };
    match (first, second) {
        (None, None) => None,
        (Some(a), None) => Some(
            ProbeLayout { crop: a, first: BBox { x: 0, y: 0, width: a.width, height: a.height }, second: empty },
        ),
        (None, Some(b)) => Some(
            ProbeLayout { crop: b, first: empty, second: BBox { x: 0, y: 0, width: b.width, height: b.height } },
        ),
        (Some(a), Some(b)) => {
            let u = a.union(&b);
            Some(
                ProbeLayout {
                    crop: u,
                    first: BBox { x: a.x - u.x, y: a.y - u.y, width: a.width, height: a.height },
                    second: BBox { x: b.x - u.x, y: b.y - u.y, width: b.width, height: b.height },
                },
            )
        },
    }
}

/// The union covers both rectangles: every pixel of either lies in it.
pub proof fn law_union_covers(a: BBox, b: BBox, px: int, py: int)
    requires
        a.edges_fit(),
        b.edges_fit(),
        a.contains(px, py) || b.contains(px, py),
    ensures
        a.spec_union(b).contains(px, py),
{
}

/// The union is the tightest cover: its edges are edges of the inputs.
pub proof fn law_union_tight(a: BBox, b: BBox)
    requires
        a.edges_fit(),
        b.edges_fit(),
    ensures
        a.spec_union(b).x == a.x || a.spec_union(b).x == b.x,
        a.spec_union(b).y == a.y || a.spec_union(b).y == b.y,
        a.spec_union(b).right() == a.right() || a.spec_union(b).right() == b.right(),
        a.spec_union(b).bottom() == a.bottom() || a.spec_union(b).bottom() == b.bottom(),
        a.spec_union(b).x <= a.x && a.spec_union(b).x <= b.x,
        a.spec_union(b).right() >= a.right() && a.spec_union(b).right() >= b.right(),
{
}

/// The union does not depend on the order of its arguments, and a
/// rectangle united with itself is unchanged.
pub proof fn law_union_symmetric(a: BBox, b: BBox)
    requires
        a.edges_fit(),
        b.edges_fit(),
    ensures
        a.spec_union(b) == b.spec_union(a),
        a.spec_union(a) == a,
{
}

/// Each region sits inside the streamed crop, and shifting it back by the
/// crop's corner gives the region in frame coordinates.
pub proof fn law_probe_regions_inside_crop(first: Option<BBox>, second: Option<BBox>)
    requires
        fits_if_present(first),
        fits_if_present(second),
        spec_probe_layout(first, second) is Some,
    ensures
        ({
            let l = spec_probe_layout(first, second)->0;
            &&& (first matches Some(a) ==> l.first.right() <= l.crop.width && l.first.bottom()
                <= l.crop.height && l.crop.x + l.first.x == a.x && l.crop.y + l.first.y == a.y
                && l.first.width == a.width && l.first.height == a.height)
            &&& (second matches Some(b) ==> l.second.right() <= l.crop.width && l.second.bottom()
                <= l.crop.height && l.crop.x + l.second.x == b.x && l.crop.y + l.second.y == b.y
                && l.second.width == b.width && l.second.height == b.height)
        }),
{
}

/// `a - b`, or zero when `b > a` (`u32::saturating_sub`).
pub open spec fn sat_sub(a: u32, b: u32) -> u32 {
    if a >= b {
        (a - b) as u32
    } else {
        0
    }
}

pub open spec fn min_u32(a: u32, b: u32) -> u32 {
    if a <= b {
        a
    } else {
        b
    }
}

pub open spec fn max_u32(a: u32, b: u32) -> u32 {
    if a >= b {
        a
    } else {
        b
    }
}

/// `roi` moved and shrunk to lie in a `w` x `h` image, keeping at least one
/// pixel in each direction.
pub open spec fn spec_clamp_roi(roi: BBox, w: u32, h: u32) -> BBox {
    let x = min_u32(roi.x, sat_sub(w, 1));
    let y = min_u32(roi.y, sat_sub(h, 1));
    BBox {
        x,
        y,
        width: max_u32(min_u32(roi.width, sat_sub(w, x)), 1),
        height: max_u32(min_u32(roi.height, sat_sub(h, y)), 1),
    }
}

/// Clamps a region to a `w` x `h` image: the corner is kept inside the image
/// and the size cut to the image's edge, never below one pixel.
pub fn clamp_roi(roi: BBox, w: u32, h: u32) -> (r: BBox)
    ensures
        r == spec_clamp_roi(roi, w, h),
{
    let x = if roi.x <= w.saturating_sub(1) { roi.x } else { w.saturating_sub(1) };
    let y = if roi.y <= h.saturating_sub(1) { roi.y } else { h.saturating_sub(1) };
    let rw = if roi.width <= w.saturating_sub(x) { roi.width } else { w.saturating_sub(x) };
    let rh = if roi.height <= h.saturating_sub(y) { roi.height } else { h.saturating_sub(y) };
    BBox { x, y, width: if rw >= 1 { rw } else { 1 }, height: if rh >= 1 { rh } else { 1 } }
}

/// A clamped region of a non-empty image lies inside it and is not empty; a
/// region already inside the image and not empty is left as it is.
pub proof fn law_clamp_roi_inside(roi: BBox, w: u32, h: u32)
    requires
        w >= 1,
        h >= 1,
    ensures
        spec_clamp_roi(roi, w, h).right() <= w,
        spec_clamp_roi(roi, w, h).bottom() <= h,
        spec_clamp_roi(roi, w, h).width >= 1,
        spec_clamp_roi(roi, w, h).height >= 1,
        roi.right() <= w && roi.bottom() <= h && roi.width >= 1 && roi.height >= 1 ==> spec_clamp_roi(
            roi,
            w,
            h,
        ) == roi,
{
}

/// The template is used at its own size when the video has the template
/// image's resolution, or when the video size is unknown (zero).
pub open spec fn spec_template_is_native(img_w: u32, img_h: u32, target_w: u32, target_h: u32) -> bool {
    (img_w == target_w && img_h == target_h) || target_w == 0 || target_h == 0
}

pub fn template_is_native(img_w: u32, img_h: u32, target_w: u32, target_h: u32) -> (b: bool)
    ensures
        b == spec_template_is_native(img_w, img_h, target_w, target_h),
{
    (img_w == target_w && img_h == target_h) || target_w == 0 || target_h == 0
}

/// A template is used at its own size when the video has exactly the
/// template image's size or a zero dimension; whenever the sizes differ and
/// the video size is known, it is rescaled.
pub proof fn law_template_is_native(img_w: u32, img_h: u32, target_w: u32, target_h: u32)
    ensures
        img_w == target_w && img_h == target_h ==> spec_template_is_native(
            img_w,
            img_h,
            target_w,
            target_h,
        ),
        target_w == 0 || target_h == 0 ==> spec_template_is_native(img_w, img_h, target_w, target_h),
        (img_w != target_w || img_h != target_h) && target_w != 0 && target_h != 0
            ==> !spec_template_is_native(img_w, img_h, target_w, target_h),
{
}

/// Clamping moves the corner into the image only when it lies outside, to
/// the last row or column, and cuts the size only where it crosses the
/// image's edge, never below one pixel.
pub proof fn law_clamp_roi_exact(roi: BBox, w: u32, h: u32)
    requires
        w >= 1,
        h >= 1,
    ensures
        roi.x < w ==> spec_clamp_roi(roi, w, h).x == roi.x,
        roi.x >= w ==> spec_clamp_roi(roi, w, h).x == w - 1,
        roi.y < h ==> spec_clamp_roi(roi, w, h).y == roi.y,
        roi.y >= h ==> spec_clamp_roi(roi, w, h).y == h - 1,
        1 <= roi.width && spec_clamp_roi(roi, w, h).x + roi.width <= w ==> spec_clamp_roi(
            roi,
            w,
            h,
        ).width == roi.width,
        spec_clamp_roi(roi, w, h).x + roi.width > w ==> spec_clamp_roi(roi, w, h).width == w
            - spec_clamp_roi(roi, w, h).x,
        roi.width == 0 ==> spec_clamp_roi(roi, w, h).width == 1,
        1 <= roi.height && spec_clamp_roi(roi, w, h).y + roi.height <= h ==> spec_clamp_roi(
            roi,
            w,
            h,
        ).height == roi.height,
        spec_clamp_roi(roi, w, h).y + roi.height > h ==> spec_clamp_roi(roi, w, h).height == h
            - spec_clamp_roi(roi, w, h).y,
        roi.height == 0 ==> spec_clamp_roi(roi, w, h).height == 1,
{
}

} // verus!
