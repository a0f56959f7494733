use vstd::prelude::*;

use crate::image::GrayImage;

verus! {

/// Sum of the pixels of row `y` in columns `x0 <= x < x1`.
pub open spec fn row_sum(img: Seq<Seq<u8>>, y: int, x0: int, x1: int) -> int
    decreases x1 - x0,
{
    if x1 <= x0 {
        0
    } else {
        row_sum(img, y, x0, x1 - 1) + img[y][x1 - 1]
    }
}

/// Sum of the pixels in columns `x0 <= x < x1` of rows `y0 <= y < y1`.
pub open spec fn block_sum(img: Seq<Seq<u8>>, x0: int, x1: int, y0: int, y1: int) -> int
    decreases y1 - y0,
{
    if y1 <= y0 {
        0
    } else {
        block_sum(img, x0, x1, y0, y1 - 1) + row_sum(img, y1 - 1, x0, x1)
    }
}

/// The window around (`x`, `y`) with the given half size, cut to the image:
/// inclusive bounds (x0, x1, y0, y1).
pub open spec fn window(w: int, h: int, x: int, y: int, half: int) -> (int, int, int, int) {
    let x0 = if x - half > 0 { x - half } else { 0 };
    let y0 = if y - half > 0 { y - half } else { 0 };
    let x1 = if x + half < w - 1 { x + half } else { w - 1 };
    let y1 = if y + half < h - 1 { y + half } else { h - 1 };
    (x0, x1, y0, y1)
}

/// Mean of the window around (`x`, `y`), rounded down.
pub open spec fn local_mean(img: Seq<Seq<u8>>, w: int, h: int, x: int, y: int, half: int) -> int {
    let (x0, x1, y0, y1) = window(w, h, x, y, half);
    block_sum(img, x0, x1 + 1, y0, y1 + 1) / ((x1 - x0 + 1) * (y1 - y0 + 1))
}

/// The thresholded value of a pixel: black (0) when it is darker than the
/// local mean minus `c`, white (255) otherwise.
pub open spec fn threshold_value(
    img: Seq<Seq<u8>>,
    w: int,
    h: int,
    x: int,
    y: int,
    half: int,
    c: int,
) -> u8 {
    if (img[y][x] as int) < local_mean(img, w, h, x, y, half) - c {
        0
    } else {
        255
    }
}

proof fn lemma_row_sum_bound(img: Seq<Seq<u8>>, y: int, x0: int, x1: int)
    requires
        x0 <= x1,
    ensures
        0 <= row_sum(img, y, x0, x1) <= 255 * (x1 - x0),
    decreases x1 - x0,
{
    if x1 > x0 {
        lemma_row_sum_bound(img, y, x0, x1 - 1);
    }
}

/// Sum and mean of the window with inclusive bounds `x0..=x1`, `y0..=y1`.
fn window_mean(img: &GrayImage, x0: u32, x1: u32, y0: u32, y1: u32) -> (mean: u64)
    requires
        img.wf(),
        x0 <= x1 < img.width,
        y0 <= y1 < img.height,
        (img.width as int) * (img.height as int) * 255 <= u64::MAX,
    ensures
        mean as int == block_sum(img.rows.deep_view(), x0 as int, x1 + 1, y0 as int, y1 + 1) / ((x1 - x0 + 1) * (
        y1 - y0 + 1)),
        mean <= 255,
{
    let ghost n_cols: int = x1 - x0 + 1;
    let ghost n_rows: int = y1 - y0 + 1;
    let ghost total: int = n_cols * n_rows;
    let ghost w: int = img.width as int;
    let ghost h: int = img.height as int;
    assert(total <= w * h) by (nonlinear_arith)
        requires
            total == n_cols * n_rows,
            0 < n_cols <= w,
            0 < n_rows <= h,
    ;
    let mut sum: u64 = 0;
    let mut count: u64 = 0;
    let mut py: u32 = y0;
    while py <= y1
        invariant
            img.wf(),
            x0 <= x1 < img.width,
            y0 <= py <= y1 + 1,
            y1 < img.height,
            n_cols == x1 - x0 + 1,
            n_rows == y1 - y0 + 1,
            total == n_cols * n_rows,
            total <= w * h,
            w * h * 255 <= u64::MAX,
            sum as int == block_sum(img.rows.deep_view(), x0 as int, x1 + 1, y0 as int, py as int),
            count as int == (py - y0) * n_cols,
            sum <= 255 * count,
        decreases y1 + 1 - py,
    {
        let row = &img.rows[py as usize];
        assert(row@.len() == img.width);
        let mut px: u32 = x0;
        while px <= x1
            invariant
                img.wf(),
                x0 <= px <= x1 + 1,
                x1 < img.width,
                y0 <= py <= y1,
                y1 < img.height,
                row@ == img.rows@[py as int]@,
                row@.len() == img.width,
                n_cols == x1 - x0 + 1,
                n_rows == y1 - y0 + 1,
                total == n_cols * n_rows,
                total <= w * h,
                w * h * 255 <= u64::MAX,
                sum as int == block_sum(img.rows.deep_view(), x0 as int, x1 + 1, y0 as int, py as int) + row_sum(
                    img.rows.deep_view(),
                    py as int,
                    x0 as int,
                    px as int,
                ),
                count as int == (py - y0) * n_cols + (px - x0),
                sum <= 255 * count,
            decreases x1 + 1 - px,
        {
            let ghost a: int = py - y0;
            assert(a * n_cols + n_cols == (a + 1) * n_cols) by (nonlinear_arith);
            assert((a + 1) * n_cols <= n_cols * n_rows) by (nonlinear_arith)
                requires
                    a + 1 <= n_rows,
                    n_cols >= 0,
            ;
            assert(count + 1 <= total);
            let v = row[px as usize];
            assert(v == img.rows.deep_view()[py as int][px as int]);
            sum = sum + v as u64;
            count = count + 1;
            px = px + 1;
        }
        assert(count as int == (py + 1 - y0) * n_cols) by (nonlinear_arith)
            requires
                count as int == (py - y0) * n_cols + (px - x0),
                px - x0 == n_cols,
        ;
        py = py + 1;
    }
    assert(count as int == total) by (nonlinear_arith)
        requires
            count as int == (py - y0) * n_cols,
            py - y0 == n_rows,
            total == n_cols * n_rows,
    ;
    assert(total > 0) by (nonlinear_arith)
        requires
            total == n_cols * n_rows,
            n_cols > 0,
            n_rows > 0,
    ;
    let mean = sum / count;
    assert(mean <= 255) by (nonlinear_arith)
        requires
            mean == sum / count,
            sum <= 255 * count,
            count > 0,
    ;
    mean
}

/// Adaptive threshold: each pixel is compared with the mean of the
/// `window`×`window` square around it (cut to the image) minus `c`; darker
/// pixels become black (0), the rest white (255). This is OpenCV's
/// `adaptiveThreshold` with `ADAPTIVE_THRESH_MEAN_C`.
pub fn adaptive_threshold(img: &GrayImage, window: u32, c: i32) -> (r: GrayImage)
    requires
        img.wf(),
        (img.width as int) * (img.height as int) * 255 <= u64::MAX,
    ensures
        r.wf(),
        r.width == img.width,
        r.height == img.height,
        forall|x: int, y: int|
            0 <= x < img.width && 0 <= y < img.height ==> #[trigger] r.at(x, y) == threshold_value(
                img.rows.deep_view(),
                img.width as int,
                img.height as int,
                x,
                y,
                (window / 2) as int,
                c as int,
            ),
{
    let w = img.width;
    let h = img.height;
    let half: i64 = (window / 2) as i64;
    let mut rows: Vec<Vec<u8>> = Vec::new();
    let mut y: u32 = 0;
    while y < h
        invariant
            img.wf(),
            w == img.width,
            h == img.height,
            half == window / 2,
            (img.width as int) * (img.height as int) * 255 <= u64::MAX,
            y <= h,
            rows@.len() == y,
            forall|k: int| 0 <= k < y ==> (#[trigger] rows@[k])@.len() == w,
            forall|xx: int, k: int|
                0 <= xx < w && 0 <= k < y ==> #[trigger] rows@[k]@[xx] == threshold_value(
                    img.rows.deep_view(),
                    w as int,
                    h as int,
                    xx,
                    k,
                    half as int,
                    c as int,
                ),
        decreases h - y,
    {
        let mut row: Vec<u8> = Vec::new();
        let mut x: u32 = 0;
        while x < w
            invariant
                img.wf(),
                w == img.width,
                h == img.height,
                half == window / 2,
                (img.width as int) * (img.height as int) * 255 <= u64::MAX,
                    y < h,
                x <= w,
                row@.len() == x,
                forall|xx: int|
                    0 <= xx < x ==> #[trigger] row@[xx] == threshold_value(
                        img.rows.deep_view(),
                        w as int,
                        h as int,
                        xx,
                        y as int,
                        half as int,
                        c as int,
                    ),
            decreases w - x,
        {
            let lo_x = x as i64 - half;
            let x0: u32 = if lo_x > 0 { lo_x as u32 } else { 0 };
            let lo_y = y as i64 - half;
            let y0: u32 = if lo_y > 0 { lo_y as u32 } else { 0 };
            let hi_x = x as i64 + half;
            let x1: u32 = if hi_x < w as i64 - 1 { hi_x as u32 } else { w - 1 };
            let hi_y = y as i64 + half;
            let y1: u32 = if hi_y < h as i64 - 1 { hi_y as u32 } else { h - 1 };
            let mean = window_mean(img, x0, x1, y0, y1);
            let pixel = img.rows[y as usize][x as usize];
            let value: u8 = if (pixel as i64) < (mean as i64) - (c as i64) {
                0
            } else {
                255
            };
            assert(value == threshold_value(
                img.rows.deep_view(),
                w as int,
                h as int,
                x as int,
                y as int,
                half as int,
                c as int,
            ));
            row.push(value);
            x = x + 1;
        }
        rows.push(row);
        y = y + 1;
    }
    GrayImage { width: w, height: h, rows }
}

/// Every row of `img` has `w` pixels, and there are `h` rows.
pub open spec fn has_size(img: Seq<Seq<u8>>, w: int, h: int) -> bool {
    img.len() == h && forall|y: int| 0 <= y < h ==> (#[trigger] img[y]).len() == w
}

/// `b` is `a` made uniformly brighter by `k` (darker for negative `k`).
pub open spec fn brighter_by(a: Seq<Seq<u8>>, b: Seq<Seq<u8>>, w: int, h: int, k: int) -> bool {
    forall|x: int, y: int| 0 <= x < w && 0 <= y < h ==> #[trigger] b[y][x] == a[y][x] + k
}

proof fn lemma_row_sum_shift(
    a: Seq<Seq<u8>>,
    b: Seq<Seq<u8>>,
    w: int,
    h: int,
    k: int,
    y: int,
    x0: int,
    x1: int,
)
    requires
        brighter_by(a, b, w, h, k),
        0 <= y < h,
        0 <= x0 <= x1 <= w,
    ensures
        row_sum(b, y, x0, x1) == row_sum(a, y, x0, x1) + k * (x1 - x0),
    decreases x1 - x0,
{
    if x1 > x0 {
        lemma_row_sum_shift(a, b, w, h, k, y, x0, x1 - 1);
        assert(b[y][x1 - 1] == a[y][x1 - 1] + k);
        assert(k * (x1 - 1 - x0) + k == k * (x1 - x0)) by (nonlinear_arith);
    } else {
        assert(k * (x1 - x0) == 0) by (nonlinear_arith)
            requires
                x1 == x0,
        ;
    }
}

proof fn lemma_block_sum_shift(
    a: Seq<Seq<u8>>,
    b: Seq<Seq<u8>>,
    w: int,
    h: int,
    k: int,
    x0: int,
    x1: int,
    y0: int,
    y1: int,
)
    requires
        brighter_by(a, b, w, h, k),
        0 <= x0 <= x1 <= w,
        0 <= y0 <= y1 <= h,
    ensures
        block_sum(b, x0, x1, y0, y1) == block_sum(a, x0, x1, y0, y1) + k * ((x1 - x0) * (y1
            - y0)),
    decreases y1 - y0,
{
    if y1 > y0 {
        lemma_block_sum_shift(a, b, w, h, k, x0, x1, y0, y1 - 1);
        lemma_row_sum_shift(a, b, w, h, k, y1 - 1, x0, x1);
        assert(k * ((x1 - x0) * (y1 - 1 - y0)) + k * (x1 - x0) == k * ((x1 - x0) * (y1 - y0)))
            by (nonlinear_arith);
    } else {
        assert(k * ((x1 - x0) * (y1 - y0)) == 0) by (nonlinear_arith)
            requires
                y1 == y0,
        ;
    }
}

/// Adaptive thresholding does not see a uniform change of brightness: making
/// every pixel brighter (or darker) by the same amount leaves every output
/// pixel as it was, since the local mean moves by that amount too.
pub proof fn lemma_threshold_ignores_uniform_brightness(
    a: Seq<Seq<u8>>,
    b: Seq<Seq<u8>>,
    w: int,
    h: int,
    half: int,
    c: int,
    k: int,
)
    requires
        has_size(a, w, h),
        has_size(b, w, h),
        brighter_by(a, b, w, h, k),
        half >= 0,
    ensures
        forall|x: int, y: int|
            0 <= x < w && 0 <= y < h ==> #[trigger] threshold_value(b, w, h, x, y, half, c)
                == threshold_value(a, w, h, x, y, half, c),
{
    assert forall|x: int, y: int| 0 <= x < w && 0 <= y < h implies #[trigger] threshold_value(
        b,
        w,
        h,
        x,
        y,
        half,
        c,
    ) == threshold_value(a, w, h, x, y, half, c) by {
        let (x0, x1, y0, y1) = window(w, h, x, y, half);
        let n = (x1 - x0 + 1) * (y1 - y0 + 1);
        lemma_block_sum_shift(a, b, w, h, k, x0, x1 + 1, y0, y1 + 1);
        assert(n > 0) by (nonlinear_arith)
            requires
                n == (x1 - x0 + 1) * (y1 - y0 + 1),
                x1 - x0 + 1 > 0,
                y1 - y0 + 1 > 0,
        ;
        let sa = block_sum(a, x0, x1 + 1, y0, y1 + 1);
        assert(block_sum(b, x0, x1 + 1, y0, y1 + 1) == sa + k * n);
        vstd::arithmetic::div_mod::lemma_hoist_over_denominator(sa, k, n as nat);
        assert(local_mean(b, w, h, x, y, half) == local_mean(a, w, h, x, y, half) + k);
        assert(b[y][x] == a[y][x] + k);
    }
}

/// The thresholded value of a pixel compares it with the mean of the square
/// of side `2 * half + 1` centred on it, cut to the image: rows
/// `max(0, y - half) ..= min(h - 1, y + half)` and columns
/// `max(0, x - half) ..= min(w - 1, x + half)`, the sum of the square's pixels
/// divided (rounding down) by their number.
pub proof fn lemma_threshold_compares_with_square_mean(
    img: Seq<Seq<u8>>,
    w: int,
    h: int,
    x: int,
    y: int,
    half: int,
    c: int,
)
    requires
        0 <= x < w,
        0 <= y < h,
        half >= 0,
    ensures
        ({
            let left = if x >= half { x - half } else { 0 };
            let right = if x + half <= w - 1 { x + half } else { w - 1 };
            let top = if y >= half { y - half } else { 0 };
            let bottom = if y + half <= h - 1 { y + half } else { h - 1 };
            let count = (right - left + 1) * (bottom - top + 1);
            let mean = block_sum(img, left, right + 1, top, bottom + 1) / count;
            &&& 0 <= left <= x <= right < w
            &&& 0 <= top <= y <= bottom < h
            &&& threshold_value(img, w, h, x, y, half, c) == if (img[y][x] as int) < mean - c {
                0u8
            } else {
                255u8
            }
        }),
{
}

/// Sum of a rectangle whose rows are all `light` but for row `r`, which is
/// all `dark`.
proof fn lemma_block_sum_of_stroke(
    img: Seq<Seq<u8>>,
    w: int,
    h: int,
    r: int,
    light: int,
    dark: int,
    x0: int,
    x1: int,
    y0: int,
    y1: int,
)
    requires
        forall|x: int, y: int|
            0 <= x < w && 0 <= y < h ==> #[trigger] img[y][x] == if y == r {
                dark
            } else {
                light
            },
        0 <= x0 <= x1 <= w,
        0 <= y0 <= y1 <= h,
    ensures
        block_sum(img, x0, x1, y0, y1) == (x1 - x0) * (light * (y1 - y0) + if y0 <= r < y1 {
            dark - light
        } else {
            0
        }),
    decreases y1 - y0,
{
    if y1 > y0 {
        lemma_block_sum_of_stroke(img, w, h, r, light, dark, x0, x1, y0, y1 - 1);
        let v = if y1 - 1 == r {
            dark
        } else {
            light
        };
        lemma_row_sum_constant(img, w, h, y1 - 1, v, x0, x1);
        let n = x1 - x0;
        let prev = light * (y1 - 1 - y0) + if y0 <= r < y1 - 1 {
            dark - light
        } else {
            0
        };
        let next = light * (y1 - y0) + if y0 <= r < y1 {
            dark - light
        } else {
            0
        };
        assert(light * (y1 - y0) == light * (y1 - 1 - y0) + light) by (nonlinear_arith);
        assert(next == prev + v);
        assert(n * prev + n * v == n * next) by (nonlinear_arith)
            requires
                next == prev + v,
        ;
    } else {
        assert((x1 - x0) * (light * (y1 - y0) + 0) == 0) by (nonlinear_arith)
            requires
                y1 == y0,
        ;
    }
}

/// Sum of a stretch of a row whose pixels all equal `v`.
proof fn lemma_row_sum_constant(
    img: Seq<Seq<u8>>,
    w: int,
    h: int,
    y: int,
    v: int,
    x0: int,
    x1: int,
)
    requires
        0 <= y < h,
        0 <= x0 <= x1 <= w,
        forall|x: int| 0 <= x < w ==> #[trigger] img[y][x] == v,
    ensures
        row_sum(img, y, x0, x1) == (x1 - x0) * v,
    decreases x1 - x0,
{
    if x1 > x0 {
        lemma_row_sum_constant(img, w, h, y, v, x0, x1 - 1);
        assert(img[y][x1 - 1] == v);
        assert((x1 - 1 - x0) * v + v == (x1 - x0) * v) by (nonlinear_arith);
    } else {
        assert((x1 - x0) * v == 0) by (nonlinear_arith)
            requires
                x1 == x0,
        ;
    }
}

/// A dark horizontal stroke (one full row of ink) on a uniform light
/// background stays black: when the background is lighter than the ink by at
/// least `2 * (c + 1)`, every pixel of the stroke thresholds to 0, whatever the
/// window (of half size at least one) and the image size (two rows or more).
pub proof fn lemma_dark_stroke_stays_black(
    img: Seq<Seq<u8>>,
    w: int,
    h: int,
    half: int,
    c: int,
    r: int,
    light: int,
    dark: int,
)
    requires
        has_size(img, w, h),
        h >= 2,
        0 <= r < h,
        half >= 1,
        c >= 0,
        light - dark >= 2 * (c + 1),
        forall|x: int, y: int|
            0 <= x < w && 0 <= y < h ==> #[trigger] img[y][x] == if y == r {
                dark
            } else {
                light
            },
    ensures
        forall|x: int| 0 <= x < w ==> #[trigger] threshold_value(img, w, h, x, r, half, c) == 0,
{
    assert forall|x: int| 0 <= x < w implies #[trigger] threshold_value(img, w, h, x, r, half, c)
        == 0 by {
        let (x0, x1, y0, y1) = window(w, h, x, r, half);
        let n = x1 - x0 + 1;
        let k = y1 - y0 + 1;
        assert(k >= 2);
        lemma_block_sum_of_stroke(img, w, h, r, light, dark, x0, x1 + 1, y0, y1 + 1);
        let s = light * (k - 1) + dark;
        assert(y0 <= r <= y1);
        assert(light * k + (dark - light) == s) by (nonlinear_arith)
            requires
                s == light * (k - 1) + dark,
        ;
        assert(block_sum(img, x0, x1 + 1, y0, y1 + 1) == n * s);
        let q = dark + c + 1;
        assert(s >= k * q) by (nonlinear_arith)
            requires
                s == light * (k - 1) + dark,
                q == dark + c + 1,
                k >= 2,
                c >= 0,
                light - dark >= 2 * (c + 1),
        ;
        assert((n * s) / (n * k) >= q) by (nonlinear_arith)
            requires
                s >= k * q,
                n >= 1,
                k >= 2,
        ;
        assert(img[r][x] == dark);
    }
}

} // verus!