//! The "outlined" layer style: box maximum and minimum over an image's
//! alpha channel, and the ring that their difference leaves.
use vstd::prelude::*;
use vstd::arithmetic::div_mod::{lemma_fundamental_div_mod, lemma_fundamental_div_mod_converse};
use crate::emblem::rank::{at_least, lemma_window_extreme, padded, sliding_extreme, sliding_extreme_1d};

verus! {

/// A single-channel image stored row by row.
pub struct GrayPlane {
    pub width: u32,
    pub height: u32,
    pub pixels: Vec<u8>,
}

impl GrayPlane {
    /// One byte per pixel.
    pub open spec fn wf(&self) -> bool {
        self.pixels@.len() == self.width * self.height
    }
}

/// Row `y` of a row-major image of width `w`.
pub open spec fn image_row(s: Seq<u8>, w: int, y: int) -> Seq<u8> {
    s.subrange(y * w, y * w + w)
}

/// Column `x` of a row-major image of width `w` and height `h`.
pub open spec fn image_col(s: Seq<u8>, w: int, h: int, x: int) -> Seq<u8> {
    Seq::new(h as nat, |y: int| s[y * w + x])
}

/// Every row replaced by its sliding extreme.
pub open spec fn filter_rows(s: Seq<u8>, w: int, h: int, k: int, is_max: bool) -> Seq<u8> {
    Seq::new((w * h) as nat, |p: int| sliding_extreme(image_row(s, w, p / w), k, is_max)[p % w])
}

/// Maximum (or minimum) over the `k` by `k` box around each pixel, with the
/// edge pixels repeated beyond the border: rows first, then columns.
pub open spec fn box_rank(s: Seq<u8>, w: int, h: int, k: int, is_max: bool) -> Seq<u8> {
    let t = filter_rows(s, w, h, k, is_max);
    Seq::new((w * h) as nat, |p: int| sliding_extreme(image_col(t, w, h, p % w), k, is_max)[p / w])
}

/// Position `y * w + x` lies in row `y`, column `x`.
pub proof fn lemma_cell(w: int, h: int, y: int, x: int)
    requires
        0 <= y < h,
        0 <= x < w,
    ensures
        (y * w + x) / w == y,
        (y * w + x) % w == x,
        0 <= y * w + x < w * h,
        0 <= y * w,
        y * w + w <= w * h,
{
    lemma_fundamental_div_mod_converse(y * w + x, w, y, x);
    assert(0 <= y * w + x < w * h && 0 <= y * w && y * w + w <= w * h) by (nonlinear_arith)
        requires 0 <= y < h, 0 <= x < w;
}

/// Every position below `w * h` is some row `p / w` and column `p % w`.
pub proof fn lemma_split(w: int, h: int, p: int)
    requires
        w > 0,
        0 <= p < w * h,
    ensures
        p == (p / w) * w + p % w,
        0 <= p % w < w,
        0 <= p / w < h,
{
    lemma_fundamental_div_mod(p, w);
    assert(p == w * (p / w) + p % w);
    assert((p / w) * w == w * (p / w)) by (nonlinear_arith);
    assert(0 <= p / w < h) by (nonlinear_arith)
        requires p == (p / w) * w + p % w, 0 <= p % w < w, 0 <= p < w * h, w > 0;
}

/// Maximum (`is_max`) or minimum over the `k` by `k` box around each pixel of
/// `img`, repeating the edge pixels beyond the border. The box is applied
/// as a row pass followed by a column pass.
pub fn box_rank_filter(img: &GrayPlane, k: u32, is_max: bool) -> (out: GrayPlane)
    requires
        img.wf(),
        img.width > 0 && img.height > 0 ==> k % 2 == 1,
        img.width * img.height <= u32::MAX,
        img.width > 0 && img.height > 0 ==> img.width + 2 * k <= usize::MAX,
        img.width > 0 && img.height > 0 ==> img.height + 2 * k <= usize::MAX,
    ensures
        out.wf(),
        out.width == img.width,
        out.height == img.height,
        out.pixels@ == box_rank(img.pixels@, img.width as int, img.height as int, k as int, is_max),
{
    let w = img.width as usize;
    let h = img.height as usize;
    let kk = k as usize;
    let src = img.pixels.as_slice();
    let ghost ws = w as int;
    let ghost hs = h as int;
    let ghost rows = filter_rows(img.pixels@, ws, hs, kk as int, is_max);
    if w == 0 || h == 0 {
        proof {
            assert(w * h == 0) by (nonlinear_arith) requires w == 0 || h == 0;
        }
        let empty: Vec<u8> = Vec::new();
        assert(empty@ =~= box_rank(img.pixels@, ws, hs, kk as int, is_max));
        return GrayPlane { width: img.width, height: img.height, pixels: empty };
    }

    let mut tmp: Vec<u8> = Vec::new();
    let mut y: usize = 0;
    while y < h
        invariant
            w == img.width,
            h == img.height,
            w > 0,
            h > 0,
            kk == k,
            src@ == img.pixels@,
            src@.len() == w * h,
            w * h <= u32::MAX,
            w + 2 * kk <= usize::MAX,
            kk % 2 == 1,
            rows == filter_rows(img.pixels@, ws, hs, kk as int, is_max),
            ws == w,
            hs == h,
            y <= h,
            tmp@.len() == y * w,
            forall|p: int| 0 <= p < tmp@.len() ==> #[trigger] tmp@[p] == rows[p],
        decreases h - y,
    {
        proof {
            lemma_cell(ws, hs, y as int, 0);
        }
        let start = y * w;
        let row = &src[start..start + w];
        let f = sliding_extreme_1d(row, kk, is_max);
        assert(row@ == image_row(img.pixels@, ws, y as int));
        assert(f@.len() == w);
        let mut x: usize = 0;
        while x < w
            invariant
                w == img.width,
                h == img.height,
                ws == w,
                hs == h,
                y < h,
                start == y * w,
                x <= w,
                row@ == image_row(img.pixels@, ws, y as int),
                f@ == sliding_extreme(row@, kk as int, is_max),
                f@.len() == w,
                rows == filter_rows(img.pixels@, ws, hs, kk as int, is_max),
                tmp@.len() == y * w + x,
                forall|p: int| 0 <= p < tmp@.len() ==> #[trigger] tmp@[p] == rows[p],
            decreases w - x,
        {
            proof {
                lemma_cell(ws, hs, y as int, x as int);
            }
            tmp.push(f[x]);
            x = x + 1;
        }
        assert(y * w + w == (y + 1) * w) by (nonlinear_arith);
        y = y + 1;
    }
    assert(tmp@.len() == w * h) by {
        assert(h * w == w * h) by (nonlinear_arith);
    }

    let mut out_pixels: Vec<u8> = Vec::new();
    let mut z: usize = 0;
    while z < w * h
        invariant
            z <= w * h,
            w * h <= u32::MAX,
            out_pixels@.len() == z,
        decreases w * h - z,
    {
        out_pixels.push(0u8);
        z = z + 1;
    }
    let ghost want = box_rank(img.pixels@, ws, hs, kk as int, is_max);
    let mut x: usize = 0;
    while x < w
        invariant
            w == img.width,
            h == img.height,
            ws == w,
            hs == h,
            w > 0,
            kk == k,
            kk % 2 == 1,
            h + 2 * kk <= usize::MAX,
            w * h <= u32::MAX,
            x <= w,
            tmp@.len() == w * h,
            forall|p: int| 0 <= p < tmp@.len() ==> #[trigger] tmp@[p] == rows[p],
            rows == filter_rows(img.pixels@, ws, hs, kk as int, is_max),
            want == box_rank(img.pixels@, ws, hs, kk as int, is_max),
            out_pixels@.len() == w * h,
            forall|yy: int, xx: int| 0 <= yy < h && 0 <= xx < x ==> #[trigger] out_pixels@[yy * ws + xx] == want[yy * ws + xx],
        decreases w - x,
    {
        let mut col: Vec<u8> = Vec::new();
        let mut y: usize = 0;
        while y < h
            invariant
                ws == w,
                hs == h,
                x < w,
                y <= h,
                w * h <= u32::MAX,
                tmp@.len() == w * h,
                col@.len() == y,
                forall|yy: int| 0 <= yy < y ==> #[trigger] col@[yy] == tmp@[yy * ws + x],
            decreases h - y,
        {
            proof {
                lemma_cell(ws, hs, y as int, x as int);
            }
            col.push(tmp[y * w + x]);
            y = y + 1;
        }
        assert(col@ =~= image_col(rows, ws, hs, x as int)) by {
            assert forall|yy: int| 0 <= yy < h implies col@[yy] == image_col(rows, ws, hs, x as int)[yy] by {
                lemma_cell(ws, hs, yy, x as int);
            }
        }
        let fc = sliding_extreme_1d(col.as_slice(), kk, is_max);
        let mut y: usize = 0;
        while y < h
            invariant
                w == img.width,
                h == img.height,
                ws == w,
                hs == h,
                x < w,
                y <= h,
                w * h <= u32::MAX,
                fc@.len() == h,
                fc@ == sliding_extreme(image_col(rows, ws, hs, x as int), kk as int, is_max),
                rows == filter_rows(img.pixels@, ws, hs, kk as int, is_max),
                want == box_rank(img.pixels@, ws, hs, kk as int, is_max),
                out_pixels@.len() == w * h,
                forall|yy: int, xx: int| 0 <= yy < h && 0 <= xx < x ==> #[trigger] out_pixels@[yy * ws + xx] == want[yy * ws + xx],
                forall|yy: int| 0 <= yy < y ==> #[trigger] out_pixels@[yy * ws + x] == want[yy * ws + x],
            decreases h - y,
        {
            proof {
                lemma_cell(ws, hs, y as int, x as int);
            }
            let ghost before = out_pixels@;
            out_pixels.set(y * w + x, fc[y]);
            proof {
                assert forall|yy: int, xx: int| 0 <= yy < h && 0 <= xx < x implies #[trigger] out_pixels@[yy * ws + xx] == want[yy * ws + xx] by {
                    lemma_cell(ws, hs, yy, xx);
                    lemma_cell(ws, hs, y as int, x as int);
                    assert(yy * ws + xx != y * ws + x) by {
                        if yy * ws + xx == y * ws + x {
                            assert((yy * ws + xx) % ws == xx);
                        }
                    }
                    assert(before[yy * ws + xx] == want[yy * ws + xx]);
                }
                assert forall|yy: int| 0 <= yy < y + 1 implies #[trigger] out_pixels@[yy * ws + x] == want[yy * ws + x] by {
                    lemma_cell(ws, hs, yy, x as int);
                    if yy < y {
                        assert(yy * ws + x != y * ws + x) by {
                            lemma_cell(ws, hs, y as int, x as int);
                        }
                        assert(before[yy * ws + x] == want[yy * ws + x]);
                    }
                }
            }
            y = y + 1;
        }
        x = x + 1;
    }
    proof {
        assert forall|p: int| 0 <= p < w * h implies #[trigger] out_pixels@[p] == want[p] by {
            lemma_split(ws, hs, p);
            let yy = p / ws;
            let xx = p % ws;
            assert(out_pixels@[yy * ws + xx] == want[yy * ws + xx]);
        }
        assert(out_pixels@ =~= want);
    }
    GrayPlane { width: img.width, height: img.height, pixels: out_pixels }
}

/// An RGBA image stored row by row, four bytes per pixel.
pub struct RgbaPlane {
    pub width: u32,
    pub height: u32,
    pub pixels: Vec<u8>,
}

impl RgbaPlane {
    /// Four bytes per pixel.
    pub open spec fn wf(&self) -> bool {
        self.pixels@.len() == 4 * (self.width * self.height)
    }
}

/// The alpha bytes of an RGBA pixel sequence.
pub open spec fn alpha_channel(s: Seq<u8>) -> Seq<u8> {
    Seq::new(s.len() / 4, |p: int| s[4 * p + 3])
}

/// Alpha of the ring pixel: how far the box maximum exceeds the box minimum.
pub open spec fn ring_alpha(dilated: u8, eroded: u8) -> u8 {
    if dilated >= eroded { (dilated - eroded) as u8 } else { 0u8 }
}

/// The outline of an RGBA image for a box of width `k`: colours kept, each
/// alpha replaced by the box maximum minus the box minimum of the alpha
/// channel around that pixel.
pub open spec fn outline_pixels(s: Seq<u8>, w: int, h: int, k: int) -> Seq<u8> {
    let a = alpha_channel(s);
    let d = box_rank(a, w, h, k, true);
    let e = box_rank(a, w, h, k, false);
    Seq::new(s.len(), |q: int| if q % 4 == 3 { ring_alpha(d[q / 4], e[q / 4]) } else { s[q] })
}

/// Sliding maximum of `a` dominates sliding minimum of `b` when `a`
/// dominates `b` position by position.
pub proof fn lemma_sliding_dominates(a: Seq<u8>, b: Seq<u8>, k: int)
    requires
        a.len() == b.len(),
        k % 2 == 1,
        k >= 1,
        forall|i: int| 0 <= i < a.len() ==> a[i] >= b[i],
    ensures
        forall|j: int| 0 <= j < a.len() ==> #[trigger] sliding_extreme(a, k, true)[j] >= sliding_extreme(b, k, false)[j],
{
    let r = k / 2;
    assert(2 * r + 1 == k) by (nonlinear_arith) requires k % 2 == 1, r == k / 2;
    let pa = padded(a, r);
    let pb = padded(b, r);
    assert forall|j: int| 0 <= j < a.len() implies #[trigger] sliding_extreme(a, k, true)[j] >= sliding_extreme(b, k, false)[j] by {
        lemma_window_extreme(pa, j, k, true);
        lemma_window_extreme(pb, j, k, false);
        assert(at_least(sliding_extreme(a, k, true)[j], pa[j], true));
        assert(at_least(sliding_extreme(b, k, false)[j], pb[j], false));
    }
}

/// The sliding extreme of a constant sequence is that constant.
pub proof fn lemma_sliding_constant(a: Seq<u8>, k: int, c: u8, is_max: bool)
    requires
        k % 2 == 1,
        k >= 1,
        forall|i: int| 0 <= i < a.len() ==> a[i] == c,
    ensures
        forall|j: int| 0 <= j < a.len() ==> #[trigger] sliding_extreme(a, k, is_max)[j] == c,
{
    let r = k / 2;
    assert(2 * r + 1 == k) by (nonlinear_arith) requires k % 2 == 1, r == k / 2;
    let pa = padded(a, r);
    assert forall|j: int| 0 <= j < a.len() implies #[trigger] sliding_extreme(a, k, is_max)[j] == c by {
        lemma_window_extreme(pa, j, k, is_max);
        let m = choose|m: int| j <= m < j + k && pa[m] == sliding_extreme(a, k, is_max)[j];
        assert(pa[m] == c);
    }
}

/// The box maximum of an image is never below its box minimum, so the
/// outline's alpha is exactly their difference.
pub proof fn lemma_box_rank_dominates(s: Seq<u8>, w: int, h: int, k: int)
    requires
        w > 0,
        h > 0,
        s.len() == w * h,
        k % 2 == 1,
        k >= 1,
    ensures
        forall|p: int| 0 <= p < w * h ==> #[trigger] box_rank(s, w, h, k, true)[p] >= box_rank(s, w, h, k, false)[p],
{
    let tmax = filter_rows(s, w, h, k, true);
    let tmin = filter_rows(s, w, h, k, false);
    assert forall|p: int| 0 <= p < w * h implies #[trigger] tmax[p] >= tmin[p] by {
        lemma_split(w, h, p);
        let y = p / w;
        lemma_cell(w, h, y, 0);
        let row = image_row(s, w, y);
        lemma_sliding_dominates(row, row, k);
    }
    assert forall|p: int| 0 <= p < w * h implies #[trigger] box_rank(s, w, h, k, true)[p] >= box_rank(s, w, h, k, false)[p] by {
        lemma_split(w, h, p);
        let x = p % w;
        let ca = image_col(tmax, w, h, x);
        let cb = image_col(tmin, w, h, x);
        assert forall|y: int| 0 <= y < h implies ca[y] >= cb[y] by {
            lemma_cell(w, h, y, x);
        }
        lemma_sliding_dominates(ca, cb, k);
    }
}

/// A box filter leaves a uniform image unchanged.
pub proof fn lemma_box_rank_uniform(s: Seq<u8>, w: int, h: int, k: int, c: u8, is_max: bool)
    requires
        w > 0,
        h > 0,
        s.len() == w * h,
        k % 2 == 1,
        k >= 1,
        forall|p: int| 0 <= p < s.len() ==> s[p] == c,
    ensures
        forall|p: int| 0 <= p < w * h ==> #[trigger] box_rank(s, w, h, k, is_max)[p] == c,
{
    let t = filter_rows(s, w, h, k, is_max);
    assert forall|p: int| 0 <= p < w * h implies #[trigger] t[p] == c by {
        lemma_split(w, h, p);
        let y = p / w;
        lemma_cell(w, h, y, 0);
        lemma_sliding_constant(image_row(s, w, y), k, c, is_max);
    }
    assert forall|p: int| 0 <= p < w * h implies #[trigger] box_rank(s, w, h, k, is_max)[p] == c by {
        lemma_split(w, h, p);
        let x = p % w;
        let col = image_col(t, w, h, x);
        assert forall|y: int| 0 <= y < h implies col[y] == c by {
            lemma_cell(w, h, y, x);
        }
        lemma_sliding_constant(col, k, c, is_max);
    }
}

/// Where an image is uniformly opaque or uniformly clear, its outline is
/// fully transparent: outlining draws an edge, not a fill.
pub proof fn lemma_outline_of_uniform_alpha(s: Seq<u8>, w: int, h: int, k: int, c: u8)
    requires
        w > 0,
        h > 0,
        s.len() == 4 * (w * h),
        k % 2 == 1,
        k >= 1,
        forall|p: int| 0 <= p < w * h ==> #[trigger] s[4 * p + 3] == c,
    ensures
        forall|p: int| 0 <= p < w * h ==> #[trigger] outline_pixels(s, w, h, k)[4 * p + 3] == 0,
{
    let a = alpha_channel(s);
    assert(a.len() == w * h);
    lemma_box_rank_uniform(a, w, h, k, c, true);
    lemma_box_rank_uniform(a, w, h, k, c, false);
    assert forall|p: int| 0 <= p < w * h implies #[trigger] outline_pixels(s, w, h, k)[4 * p + 3] == 0 by {
        assert((4 * p + 3) % 4 == 3 && (4 * p + 3) / 4 == p);
    }
}

/// The outline of `img` for an edge of `radius` pixels: colours unchanged,
/// each alpha replaced by the maximum minus the minimum alpha over the
/// `2 * radius + 1` square around the pixel (edges repeated beyond the border).
pub fn outline_rgba(img: &RgbaPlane, radius: u32) -> (out: RgbaPlane)
    requires
        img.wf(),
        2 * radius + 1 <= u32::MAX,
        img.width * img.height <= u32::MAX,
        img.width > 0 && img.height > 0 ==> img.width + 4 * radius + 2 <= usize::MAX,
        img.width > 0 && img.height > 0 ==> img.height + 4 * radius + 2 <= usize::MAX,
    ensures
        out.wf(),
        out.width == img.width,
        out.height == img.height,
        out.pixels@ == outline_pixels(img.pixels@, img.width as int, img.height as int, 2 * radius + 1),
        forall|p: int| 0 <= p < img.width * img.height ==> #[trigger] out.pixels@[4 * p + 3] == box_rank(
            alpha_channel(img.pixels@), img.width as int, img.height as int, 2 * radius + 1, true)[p]
            - box_rank(alpha_channel(img.pixels@), img.width as int, img.height as int, 2 * radius + 1, false)[p],
{
    let k: u32 = 2 * radius + 1;
    let n = img.width as usize * img.height as usize;
    let plen = img.pixels.len();
    assert(plen == 4 * n);
    let ghost a = alpha_channel(img.pixels@);
    let mut alpha: Vec<u8> = Vec::new();
    let mut p: usize = 0;
    while p < n
        invariant
            n == img.width * img.height,
            n <= u32::MAX,
            img.pixels@.len() == 4 * n,
            4 * n <= usize::MAX,
            a == alpha_channel(img.pixels@),
            p <= n,
            alpha@ == a.subrange(0, p as int),
        decreases n - p,
    {
        alpha.push(img.pixels[4 * p + 3]);
        p = p + 1;
        assert(alpha@ =~= a.subrange(0, p as int));
    }
    assert(alpha@ =~= a);
    let plane = GrayPlane { width: img.width, height: img.height, pixels: alpha };
    assert(k % 2 == 1);
    let dilated = box_rank_filter(&plane, k, true);
    let eroded = box_rank_filter(&plane, k, false);
    let ghost want = outline_pixels(img.pixels@, img.width as int, img.height as int, k as int);
    let mut pixels: Vec<u8> = Vec::new();
    let mut q: usize = 0;
    while q < n
        invariant
            n == img.width * img.height,
            n <= u32::MAX,
            img.pixels@.len() == 4 * n,
            4 * n <= usize::MAX,
            dilated.pixels@.len() == n,
            eroded.pixels@.len() == n,
            dilated.pixels@ == box_rank(a, img.width as int, img.height as int, k as int, true),
            eroded.pixels@ == box_rank(a, img.width as int, img.height as int, k as int, false),
            a == alpha_channel(img.pixels@),
            want == outline_pixels(img.pixels@, img.width as int, img.height as int, k as int),
            q <= n,
            pixels@ == want.subrange(0, 4 * q as int),
        decreases n - q,
    {
        let dv = dilated.pixels[q];
        let ev = eroded.pixels[q];
        let edge: u8 = if dv >= ev { dv - ev } else { 0 };
        pixels.push(img.pixels[4 * q]);
        pixels.push(img.pixels[4 * q + 1]);
        pixels.push(img.pixels[4 * q + 2]);
        pixels.push(edge);
        proof {
            assert((4 * q) % 4 == 0 && (4 * q + 1) % 4 == 1 && (4 * q + 2) % 4 == 2 && (4 * q + 3) % 4 == 3);
            assert((4 * q + 3) / 4 == q);
            assert(pixels@ =~= want.subrange(0, 4 * (q + 1)));
        }
        q = q + 1;
    }
    proof {
        assert(pixels@ =~= want);
        if n > 0 {
            assert(img.width > 0 && img.height > 0) by (nonlinear_arith)
                requires n == img.width * img.height, n > 0;
            lemma_box_rank_dominates(a, img.width as int, img.height as int, k as int);
        }
        assert forall|p: int| 0 <= p < img.width * img.height implies #[trigger] pixels@[4 * p + 3]
            == dilated.pixels@[p] - eroded.pixels@[p] by {
            assert((4 * p + 3) % 4 == 3 && (4 * p + 3) / 4 == p);
            assert(img.width > 0 && img.height > 0) by (nonlinear_arith)
                requires 0 <= p < img.width * img.height;
        }
    }
    RgbaPlane { width: img.width, height: img.height, pixels }
}

} // verus!
