use vstd::prelude::*;

use crate::config::RoiPixels;
use crate::error::ProcessorError;

verus! {

/// An 8-bit RGBA image, stored row by row; each row holds four bytes
/// (red, green, blue, alpha) per pixel.
#[derive(Debug)]
pub struct RgbaImage {
    pub width: u32,
    pub height: u32,
    pub rows: Vec<Vec<u8>>,
}

/// An 8-bit grayscale image, stored row by row, one byte per pixel.
#[derive(Debug)]
pub struct GrayImage {
    pub width: u32,
    pub height: u32,
    pub rows: Vec<Vec<u8>>,
}

impl RgbaImage {
    /// There are `height` rows of `4 * width` bytes.
    pub open spec fn wf(&self) -> bool {
        &&& self.rows@.len() == self.height
        &&& forall|y: int| 0 <= y < self.height ==> (#[trigger] self.rows@[y])@.len() == 4 * self.width
    }

    /// The bytes of row `y`.
    pub open spec fn row(&self, y: int) -> Seq<u8> {
        self.rows@[y]@
    }
}

impl GrayImage {
    /// There are `height` rows of `width` bytes.
    pub open spec fn wf(&self) -> bool {
        &&& self.rows@.len() == self.height
        &&& forall|y: int| 0 <= y < self.height ==> (#[trigger] self.rows@[y])@.len() == self.width
    }

    /// The value of the pixel in column `x`, row `y`.
    pub open spec fn at(&self, x: int, y: int) -> u8 {
        self.rows@[y]@[x]
    }
}

/// The bytes `v[a..b]`, copied.
pub fn copy_range(v: &Vec<u8>, a: usize, b: usize) -> (r: Vec<u8>)
    requires
        a <= b <= v@.len(),
    ensures
        r@ == v@.subrange(a as int, b as int),
{
    let mut r: Vec<u8> = Vec::new();
    let mut i = a;
    while i < b
        invariant
            a <= i <= b <= v@.len(),
            r@ == v@.subrange(a as int, i as int),
        decreases b - i,
    {
        r.push(v[i]);
        i += 1;
        assert(r@ =~= v@.subrange(a as int, i as int));
    }
    r
}

/// The rectangle that `image::imageops::crop_imm` keeps of a `w`×`h` image
/// for a request at (`x`, `y`) of `cw`×`ch`: the corner is pulled into the
/// image and the size cut to what lies inside. Gives (x, y, width, height).
pub open spec fn crop_rect(w: u32, h: u32, x: u32, y: u32, cw: u32, ch: u32) -> (
    u32,
    u32,
    u32,
    u32,
) {
    let x0 = if x <= w { x } else { w };
    let y0 = if y <= h { y } else { h };
    let cw0 = if cw <= w - x0 { cw } else { (w - x0) as u32 };
    let ch0 = if ch <= h - y0 { ch } else { (h - y0) as u32 };
    (x0, y0, cw0, ch0)
}

/// `r` is the part of `img` inside the rectangle (`x`, `y`, `cw`, `ch`).
pub open spec fn is_crop_of(r: RgbaImage, img: RgbaImage, x: u32, y: u32, cw: u32, ch: u32) -> bool {
    &&& r.wf()
    &&& r.width == cw
    &&& r.height == ch
    &&& forall|j: int|
        0 <= j < ch ==> #[trigger] r.row(j) == img.row(y + j).subrange(
            4 * x,
            4 * (x + cw),
        )
}

/// Copy a rectangle out of an image, as `DynamicImage::crop_imm` does: the
/// rectangle is first cut to the part that lies inside the image.
pub fn crop(img: &RgbaImage, x: u32, y: u32, cw: u32, ch: u32) -> (r: RgbaImage)
    requires
        img.wf(),
    ensures
        ({
            let (x0, y0, cw0, ch0) = crop_rect(img.width, img.height, x, y, cw, ch);
            is_crop_of(r, *img, x0, y0, cw0, ch0)
        }),
{
    let x0 = if x <= img.width { x } else { img.width };
    let y0 = if y <= img.height { y } else { img.height };
    let cw0 = if cw <= img.width - x0 { cw } else { img.width - x0 };
    let ch0 = if ch <= img.height - y0 { ch } else { img.height - y0 };
    let mut rows: Vec<Vec<u8>> = Vec::new();
    let mut j: u32 = 0;
    while j < ch0
        invariant
            img.wf(),
            x0 + cw0 <= img.width,
            y0 + ch0 <= img.height,
            j <= ch0,
            rows@.len() == j,
            forall|k: int|
                0 <= k < j ==> (#[trigger] rows@[k])@ == img.row(y0 + k).subrange(
                    4 * x0,
                    4 * (x0 + cw0),
                ),
        decreases ch0 - j,
    {
        let src = &img.rows[(y0 + j) as usize];
        let n = src.len();
        assert(n == 4 * img.width);
        let row = copy_range(src, 4 * (x0 as usize), 4 * (x0 as usize + cw0 as usize));
        rows.push(row);
        j += 1;
    }
    let r = RgbaImage { width: cw0, height: ch0, rows };
    assert forall|k: int| 0 <= k < ch0 implies (#[trigger] r.rows@[k])@.len() == 4 * cw0 by {
        assert(r.rows@[k]@ == img.row(y0 + k).subrange(4 * x0, 4 * (x0 + cw0)));
    }
    r
}

/// Crop the region of interest out of a page image, as `crop_imm` with the
/// region's corner and size.
pub fn crop_roi(img: &RgbaImage, roi: &RoiPixels) -> (r: RgbaImage)
    requires
        img.wf(),
        roi.wf(),
    ensures
        ({
            let (x0, y0, cw0, ch0) = crop_rect(
                img.width,
                img.height,
                roi.x1,
                roi.y1,
                (roi.x2 - roi.x1) as u32,
                (roi.y2 - roi.y1) as u32,
            );
            is_crop_of(r, *img, x0, y0, cw0, ch0)
        }),
{
    crop(img, roi.x1, roi.y1, roi.width(), roi.height())
}

/// Both A4 halves of one A3 scan.
#[derive(Debug)]
pub struct A3Split {
    /// Left half (for the outer sheet: page 4).
    pub left: RgbaImage,
    /// Right half (for the outer sheet: page 1, with the application number).
    pub right: RgbaImage,
}

/// What splitting an image of width `width` gives: an error for widths under
/// two; otherwise the columns left of the middle and the rest.
pub open spec fn split_outcome(img: RgbaImage, r: Result<A3Split, ProcessorError>) -> bool {
    if img.width < 2 {
        r == Err::<A3Split, ProcessorError>(ProcessorError::ImageSplitError { width: img.width })
    } else {
        let mid = (img.width / 2) as u32;
        r matches Ok(s) && is_crop_of(s.left, img, 0, 0, mid, img.height) && is_crop_of(
            s.right,
            img,
            mid,
            0,
            (img.width - mid) as u32,
            img.height,
        )
    }
}

/// Split an A3 image vertically at the horizontal midpoint into two A4 halves.
pub fn split_vertical(img: RgbaImage) -> (r: Result<A3Split, ProcessorError>)
    requires
        img.wf(),
    ensures
        split_outcome(img, r),
{
    let width = img.width;
    let height = img.height;
    if width < 2 {
        return Err(ProcessorError::ImageSplitError { width });
    }
    let mid = width / 2;
    let left = crop(&img, 0, 0, mid, height);
    let right = crop(&img, mid, 0, width - mid, height);
    Ok(A3Split { left, right })
}

/// Splitting loses nothing: every row of the image is the left half's row
/// followed by the right half's row.
pub proof fn lemma_split_rejoins(img: RgbaImage, s: A3Split)
    requires
        img.wf(),
        split_outcome(img, Ok(s)),
    ensures
        s.left.width + s.right.width == img.width,
        s.left.height == img.height,
        s.right.height == img.height,
        forall|y: int| 0 <= y < img.height ==> #[trigger] img.row(y) == s.left.row(y) + s.right.row(y),
{
    assert forall|y: int| 0 <= y < img.height implies #[trigger] img.row(y) == s.left.row(y)
        + s.right.row(y) by {
        let mid = img.width / 2;
        assert(s.left.row(y) == img.row(y).subrange(0, 4 * mid));
        assert(s.right.row(y) == img.row(y).subrange(4 * mid, 4 * img.width));
        assert(img.row(y) =~= s.left.row(y) + s.right.row(y));
    }
}


/// The rows of an image one after the other.
pub open spec fn concat_rows(rows: Seq<Seq<u8>>) -> Seq<u8>
    decreases rows.len(),
{
    if rows.len() == 0 {
        Seq::empty()
    } else {
        concat_rows(rows.drop_last()) + rows.last()
    }
}

/// Rows of `w` bytes each make `rows.len() * w` bytes.
pub proof fn lemma_concat_rows_len(rows: Seq<Seq<u8>>, w: int)
    requires
        w >= 0,
        forall|y: int| 0 <= y < rows.len() ==> (#[trigger] rows[y]).len() == w,
    ensures
        concat_rows(rows).len() == rows.len() * w,
    decreases rows.len(),
{
    if rows.len() > 0 {
        lemma_concat_rows_len(rows.drop_last(), w);
        let n = rows.len() as int;
        assert((n - 1) * w + w == n * w) by (nonlinear_arith);
    }
}

/// The rows of a row-major buffer of `h` rows of `w` bytes.
pub open spec fn split_rows(flat: Seq<u8>, w: int, h: int) -> Seq<Seq<u8>> {
    Seq::new(h as nat, |y: int| flat.subrange(y * w, (y + 1) * w))
}

/// The row-major buffer of a list of rows.
pub fn flatten_rows(rows: &Vec<Vec<u8>>) -> (r: Vec<u8>)
    ensures
        r@ == concat_rows(rows.deep_view()),
{
    let mut r: Vec<u8> = Vec::new();
    let mut y: usize = 0;
    while y < rows.len()
        invariant
            y <= rows@.len(),
            r@ == concat_rows(rows.deep_view().take(y as int)),
        decreases rows@.len() - y,
    {
        let row = &rows[y];
        let mut x: usize = 0;
        let ghost before = r@;
        while x < row.len()
            invariant
                x <= row@.len(),
                r@ == before + row@.take(x as int),
            decreases row@.len() - x,
        {
            r.push(row[x]);
            x += 1;
            assert(r@ =~= before + row@.take(x as int));
        }
        assert(row@.take(x as int) =~= row@);
        assert(rows.deep_view().take(y + 1).drop_last() =~= rows.deep_view().take(y as int));
        y += 1;
    }
    assert(rows.deep_view().take(y as int) =~= rows.deep_view());
    r
}

/// Cut a row-major buffer of `h` rows of `w` bytes back into rows.
pub fn rows_of_flat(w: u32, h: u32, flat: &Vec<u8>) -> (rows: Vec<Vec<u8>>)
    requires
        flat@.len() == (w as int) * (h as int),
    ensures
        rows@.len() == h,
        forall|y: int| 0 <= y < h ==> (#[trigger] rows@[y])@.len() == w,
        rows.deep_view() == split_rows(flat@, w as int, h as int),
{
    let mut rows: Vec<Vec<u8>> = Vec::new();
    let mut y: u32 = 0;
    let mut off: usize = 0;
    let n = flat.len();
    while y < h
        invariant
            y <= h,
            n == flat@.len(),
            flat@.len() == (w as int) * (h as int),
            off as int == (y as int) * (w as int),
            rows@.len() == y,
            forall|k: int| 0 <= k < y ==> (#[trigger] rows@[k])@.len() == w,
            forall|k: int|
                0 <= k < y ==> (#[trigger] rows@[k])@ == flat@.subrange(
                    k * (w as int),
                    (k + 1) * (w as int),
                ),
        decreases h - y,
    {
        assert((y as int + 1) * (w as int) <= (h as int) * (w as int)) by (nonlinear_arith)
            requires
                y < h,
        ;
        assert((y as int + 1) * (w as int) == (y as int) * (w as int) + w) by (nonlinear_arith);
        assert((h as int) * (w as int) == (w as int) * (h as int)) by (nonlinear_arith);
        let row = copy_range(flat, off, off + w as usize);
        rows.push(row);
        off = off + w as usize;
        y += 1;
    }
    assert forall|k: int| 0 <= k < h implies #[trigger] rows.deep_view()[k] == split_rows(
        flat@,
        w as int,
        h as int,
    )[k] by {
        assert(rows.deep_view()[k] == rows@[k]@);
    }
    assert(rows.deep_view() =~= split_rows(flat@, w as int, h as int));
    rows
}

} // verus!
