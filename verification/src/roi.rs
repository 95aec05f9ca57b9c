use vstd::prelude::*;
use vstd::arithmetic::div_mod::lemma_fundamental_div_mod_converse;

use crate::geometry::BBox;

verus! {

/// Byte offset of pixel `(px, py)` in a packed RGB buffer `bw` pixels wide.
pub open spec fn pixel_offset(bw: int, px: int, py: int) -> int {
    (py * bw + px) * 3
}

/// Channel `c` of pixel `(px, py)` of a `bw` x `bh` RGB frame; zero outside the frame.
pub open spec fn pixel_byte(buf: Seq<u8>, bw: int, bh: int, px: int, py: int, c: int) -> u8 {
    if 0 <= px < bw && 0 <= py < bh {
        buf[pixel_offset(bw, px, py) + c]
    } else {
        0
    }
}

/// Byte `k` of the row-major RGB crop of `b` out of the frame.
pub open spec fn roi_byte(buf: Seq<u8>, bw: int, bh: int, b: BBox, k: int) -> u8 {
    let p = k / 3;
    pixel_byte(buf, bw, bh, b.x + p % (b.width as int), b.y + p / (b.width as int), k % 3)
}

/// The crop of rectangle `b` out of a `bw` x `bh` RGB frame, row by row,
/// three bytes per pixel, with zeros wherever the rectangle leaves the frame.
pub open spec fn roi_spec(buf: Seq<u8>, bw: u32, bh: u32, b: BBox) -> Seq<u8> {
    Seq::new(
        (b.width * b.height * 3) as nat,
        |k: int| roi_byte(buf, bw as int, bh as int, b, k),
    )
}

/// Every pixel of `b` that lies inside the frame can be read from a buffer of `len` bytes.
pub open spec fn reads_in_bounds(len: int, bw: int, bh: int, b: BBox) -> bool {
    forall|px: int, py: int|
        b.contains(px, py) && 0 <= px < bw && 0 <= py < bh ==> #[trigger] pixel_offset(bw, px, py)
            + 3 <= len
}

/// Index arithmetic of the crop: byte `(j * w + i) * 3 + c` is channel `c`
/// of column `i`, row `j`.
pub proof fn lemma_roi_index(w: int, j: int, i: int, c: int)
    requires
        0 <= i < w,
        0 <= j,
        0 <= c < 3,
    ensures
        ((j * w + i) * 3 + c) / 3 == j * w + i,
        ((j * w + i) * 3 + c) % 3 == c,
        (j * w + i) % w == i,
        (j * w + i) / w == j,
{
    lemma_fundamental_div_mod_converse((j * w + i) * 3 + c, 3, j * w + i, c);
    assert(j * w == w * j) by (nonlinear_arith);
    lemma_fundamental_div_mod_converse(j * w + i, w, j, i);
}

/// The crop holds the rectangle's pixels row by row, three bytes each: the
/// frame's bytes where the pixel lies in the frame, zero elsewhere.
pub proof fn law_roi_pixels(buf: Seq<u8>, bw: u32, bh: u32, b: BBox, i: int, j: int, c: int)
    requires
        0 <= i < b.width,
        0 <= j < b.height,
        0 <= c < 3,
    ensures
        roi_spec(buf, bw, bh, b).len() == b.width * b.height * 3,
        0 <= (j * b.width + i) * 3 + c < b.width * b.height * 3,
        roi_spec(buf, bw, bh, b)[(j * b.width + i) * 3 + c] == (if b.x + i < bw && b.y + j < bh {
            buf[((b.y + j) * bw + (b.x + i)) * 3 + c]
        } else {
            0
        }),
{
    lemma_roi_index(b.width as int, j, i, c);
    assert(0 <= (j * b.width + i) * 3 + c < b.width * b.height * 3) by (nonlinear_arith)
        requires
            0 <= i < b.width,
            0 <= j < b.height,
            0 <= c < 3,
    ;
}

/// A buffer that holds the whole frame can be read at every in-frame pixel.
pub proof fn lemma_full_frame_reads(len: int, bw: int, bh: int, b: BBox)
    requires
        len >= bw * bh * 3,
    ensures
        reads_in_bounds(len, bw, bh, b),
{
    assert forall|px: int, py: int|
        b.contains(px, py) && 0 <= px < bw && 0 <= py < bh implies #[trigger] pixel_offset(
            bw,
            px,
            py,
        ) + 3 <= len by {
        assert((py * bw + px) * 3 + 3 <= bw * bh * 3) by (nonlinear_arith)
            requires
                0 <= px < bw,
                0 <= py < bh,
        ;
    }
}

/// Copies the RGB pixels of `bbox` out of a packed `buf_w` x `buf_h` RGB
/// frame, row by row; pixels outside the frame come out black.
pub fn extract_roi(buffer: &[u8], buf_w: u32, buf_h: u32, bbox: BBox) -> (roi: Vec<u8>)
    requires
        bbox.width * bbox.height * 3 <= usize::MAX,
        reads_in_bounds(buffer@.len() as int, buf_w as int, buf_h as int, bbox),
    ensures
        roi@ == roi_spec(buffer@, buf_w, buf_h, bbox),
{
    let w = bbox.width;
    let h = bbox.height;
    let ghost gw = w as int;
    let total: usize = (w as usize) * (h as usize) * 3;
    let mut roi: Vec<u8> = Vec::with_capacity(total);
    let mut j: u32 = 0;
    while j < h
        invariant
            0 <= j <= h,
            w == bbox.width,
            h == bbox.height,
            gw == w as int,
            reads_in_bounds(buffer@.len() as int, buf_w as int, buf_h as int, bbox),
            roi@.len() == j * gw * 3,
            forall|k: int|
                0 <= k < roi@.len() ==> #[trigger] roi@[k] == roi_byte(
                    buffer@,
                    buf_w as int,
                    buf_h as int,
                    bbox,
                    k,
                ),
        decreases h - j,
    {
        let py: u64 = bbox.y as u64 + j as u64;
        let mut i: u32 = 0;
        while i < w
            invariant
                0 <= j < h,
                0 <= i <= w,
                w == bbox.width,
                h == bbox.height,
                gw == w as int,
                py == bbox.y + j,
                reads_in_bounds(buffer@.len() as int, buf_w as int, buf_h as int, bbox),
                roi@.len() == (j * gw + i) * 3,
                forall|k: int|
                    0 <= k < roi@.len() ==> #[trigger] roi@[k] == roi_byte(
                        buffer@,
                        buf_w as int,
                        buf_h as int,
                        bbox,
                        k,
                    ),
            decreases w - i,
        {
            let px: u64 = bbox.x as u64 + i as u64;
            let ghost base = (j * gw + i) * 3;
            proof {
                lemma_roi_index(gw, j as int, i as int, 0);
                lemma_roi_index(gw, j as int, i as int, 1);
                lemma_roi_index(gw, j as int, i as int, 2);
            }
            if px < buf_w as u64 && py < buf_h as u64 {
                proof {
                    assert(bbox.contains(px as int, py as int));
                    assert(pixel_offset(buf_w as int, px as int, py as int) + 3
                        <= buffer@.len());
                    assert(0 <= py * buf_w <= py * buf_w + px <= (py * buf_w + px) * 3)
                        by (nonlinear_arith)
                        requires
                            0 <= px,
                            0 <= py,
                            0 <= buf_w,
                    ;
                }
                let blen: usize = buffer.len();
                let pyu: usize = py as usize;
                let pxu: usize = px as usize;
                assert(pyu * buf_w <= blen);
                let row: usize = pyu * (buf_w as usize);
                let idx: usize = (row + pxu) * 3;
                roi.push(buffer[idx]);
                roi.push(buffer[idx + 1]);
                roi.push(buffer[idx + 2]);
            } else {
                roi.push(0u8);
                roi.push(0u8);
                roi.push(0u8);
            }
            proof {
                assert((j * gw + i) * 3 + 3 == (j * gw + (i + 1)) * 3) by (nonlinear_arith);
            }
            i = i + 1;
        }
        proof {
            assert((j * gw + gw) * 3 == (j + 1) * gw * 3) by (nonlinear_arith);
        }
        j = j + 1;
    }
    proof {
        assert(j * gw * 3 == bbox.width * bbox.height * 3) by (nonlinear_arith)
            requires
                j == bbox.height,
                gw == bbox.width,
        ;
        assert(roi@ =~= roi_spec(buffer@, buf_w, buf_h, bbox));
    }
    roi
}

} // verus!

verus! {

/// Sum of the bytes of `s`.
pub open spec fn byte_sum(s: Seq<u8>) -> nat
    decreases s.len(),
{
    if s.len() == 0 {
        0
    } else {
        byte_sum(s.drop_last()) + s.last() as nat
    }
}

/// Sum of the squares of the bytes of `s`.
pub open spec fn byte_square_sum(s: Seq<u8>) -> nat
    decreases s.len(),
{
    if s.len() == 0 {
        0
    } else {
        byte_square_sum(s.drop_last()) + (s.last() as nat) * (s.last() as nat)
    }
}

/// `sum of a[i] * b[i]` over the indices of `b`.
pub open spec fn byte_dot(a: Seq<u8>, b: Seq<u8>) -> nat
    decreases b.len(),
{
    if b.len() == 0 {
        0
    } else {
        byte_dot(a, b.drop_last()) + (a[b.len() - 1] as nat) * (b.last() as nat)
    }
}

/// The sums a template contributes to the normalized cross-correlation.
pub struct TemplateSums {
    pub len: usize,
    pub sum: u128,
    pub square_sum: u128,
}

/// The sums a frame window contributes to the normalized cross-correlation
/// against a template: of the window bytes, of their squares, and of their
/// products with the template bytes.
pub struct WindowSums {
    pub sum: u128,
    pub square_sum: u128,
    pub cross_sum: u128,
}

proof fn lemma_byte_sums_bounded(s: Seq<u8>)
    ensures
        byte_sum(s) <= 255 * s.len(),
        byte_square_sum(s) <= 65025 * s.len(),
    decreases s.len(),
{
    if s.len() > 0 {
        lemma_byte_sums_bounded(s.drop_last());
        let v = s.last();
        assert(v * v <= 65025) by (nonlinear_arith)
            requires
                0 <= v <= 255,
        ;
    }
}

proof fn lemma_byte_dot_bounded(a: Seq<u8>, b: Seq<u8>)
    requires
        b.len() <= a.len(),
    ensures
        byte_dot(a, b) <= 65025 * b.len(),
    decreases b.len(),
{
    if b.len() > 0 {
        lemma_byte_dot_bounded(a, b.drop_last());
        let u = a[b.len() - 1];
        let v = b.last();
        assert(u * v <= 65025) by (nonlinear_arith)
            requires
                0 <= u <= 255,
                0 <= v <= 255,
        ;
    }
}

/// The dot product only reads the first `b.len()` bytes of `a`.
pub proof fn lemma_byte_dot_prefix(a: Seq<u8>, b: Seq<u8>, n: int)
    requires
        b.len() <= n <= a.len(),
    ensures
        byte_dot(a, b) == byte_dot(a.take(n), b),
    decreases b.len(),
{
    if b.len() > 0 {
        lemma_byte_dot_prefix(a, b.drop_last(), n);
    }
}

/// A sequence dotted with itself gives its square sum.
pub proof fn lemma_byte_dot_self(s: Seq<u8>)
    ensures
        byte_dot(s, s) == byte_square_sum(s),
    decreases s.len(),
{
    if s.len() > 0 {
        lemma_byte_dot_prefix(s, s.drop_last(), s.len() - 1);
        assert(s.take(s.len() - 1) =~= s.drop_last());
        lemma_byte_dot_self(s.drop_last());
    }
}

/// Sums of the template bytes and of their squares.
pub fn template_sums(template: &[u8]) -> (t: TemplateSums)
    ensures
        t.len == template@.len(),
        t.sum == byte_sum(template@),
        t.square_sum == byte_square_sum(template@),
{
    let n = template.len();
    let mut sum: u128 = 0;
    let mut square_sum: u128 = 0;
    let mut i: usize = 0;
    while i < n
        invariant
            n == template@.len(),
            0 <= i <= n,
            sum == byte_sum(template@.take(i as int)),
            square_sum == byte_square_sum(template@.take(i as int)),
        decreases n - i,
    {
        proof {
            assert(template@.take(i + 1).drop_last() =~= template@.take(i as int));
            lemma_byte_sums_bounded(template@.take(i as int));
            assert(65025 * i <= 65025 * 0x1_0000_0000_0000_0000) by (nonlinear_arith)
                requires
                    i <= 0x1_0000_0000_0000_0000,
            ;
        }
        let b = template[i];
        proof {
            assert((b as u128) * (b as u128) <= 65025) by (nonlinear_arith)
                requires
                    b <= 255,
            ;
        }
        sum = sum + b as u128;
        square_sum = square_sum + (b as u128) * (b as u128);
        i = i + 1;
    }
    proof {
        assert(template@.take(n as int) =~= template@);
    }
    TemplateSums { len: n, sum, square_sum }
}

/// Sums of the window `bbox` of the frame, compared byte by byte against the
/// template over the template's length.
pub fn window_sums(
    buffer: &[u8],
    buf_w: u32,
    buf_h: u32,
    bbox: BBox,
    template: &[u8],
) -> (s: WindowSums)
    requires
        bbox.width * bbox.height * 3 <= usize::MAX,
        reads_in_bounds(buffer@.len() as int, buf_w as int, buf_h as int, bbox),
        template@.len() <= bbox.width * bbox.height * 3,
    ensures
        ({
            let window = roi_spec(buffer@, buf_w, buf_h, bbox).take(template@.len() as int);
            &&& s.sum == byte_sum(window)
            &&& s.square_sum == byte_square_sum(window)
            &&& s.cross_sum == byte_dot(window, template@)
        }),
{
    let roi = extract_roi(buffer, buf_w, buf_h, bbox);
    let n = template.len();
    let ghost window = roi@.take(n as int);
    let mut sum: u128 = 0;
    let mut square_sum: u128 = 0;
    let mut cross_sum: u128 = 0;
    let mut i: usize = 0;
    while i < n
        invariant
            n == template@.len(),
            n <= roi@.len(),
            window == roi@.take(n as int),
            0 <= i <= n,
            sum == byte_sum(roi@.take(i as int)),
            square_sum == byte_square_sum(roi@.take(i as int)),
            cross_sum == byte_dot(window, template@.take(i as int)),
        decreases n - i,
    {
        proof {
            assert(roi@.take(i + 1).drop_last() =~= roi@.take(i as int));
            assert(template@.take(i + 1).drop_last() =~= template@.take(i as int));
            lemma_byte_sums_bounded(roi@.take(i as int));
            lemma_byte_dot_bounded(window, template@.take(i as int));
            assert(65025 * i <= 65025 * 0x1_0000_0000_0000_0000) by (nonlinear_arith)
                requires
                    i <= 0x1_0000_0000_0000_0000,
            ;
        }
        let a = roi[i];
        let b = template[i];
        proof {
            assert((a as u128) * (a as u128) <= 65025 && (a as u128) * (b as u128) <= 65025)
                by (nonlinear_arith)
                requires
                    a <= 255,
                    b <= 255,
            ;
        }
        sum = sum + a as u128;
        square_sum = square_sum + (a as u128) * (a as u128);
        cross_sum = cross_sum + (a as u128) * (b as u128);
        i = i + 1;
    }
    proof {
        assert(template@.take(n as int) =~= template@);
    }
    WindowSums { sum, square_sum, cross_sum }
}

/// When the window holds exactly the template, its sums are the template's
/// own, and the cross sum equals the square sum: the correlation is perfect.
pub proof fn law_window_matching_template(
    frame: Seq<u8>,
    bw: u32,
    bh: u32,
    bbox: BBox,
    template: Seq<u8>,
)
    requires
        template.len() <= bbox.width * bbox.height * 3,
        roi_spec(frame, bw, bh, bbox).take(template.len() as int) == template,
    ensures
        ({
            let window = roi_spec(frame, bw, bh, bbox).take(template.len() as int);
            &&& byte_sum(window) == byte_sum(template)
            &&& byte_square_sum(window) == byte_square_sum(template)
            &&& byte_dot(window, template) == byte_square_sum(template)
        }),
{
    lemma_byte_dot_self(template);
}

} // verus!
