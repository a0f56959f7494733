use image::ImageEncoder;
use vstd::prelude::*;
use vstd::utf8::encode_utf8;

use crate::error::ProcessorError;
use crate::image::{
    concat_rows, flatten_rows, lemma_concat_rows_len, rows_of_flat, split_rows, GrayImage,
    RgbaImage,
};
use crate::threshold::{adaptive_threshold, threshold_value};

verus! {

/// Calls `image::DynamicImage::to_luma8` on the RGBA image made of `rgba`.
/// Claimed: one gray byte per pixel comes back. Which gray values they are is
/// left unsaid: nothing downstream can rely on them, since the resize that
/// follows is not a fixed function of its input.
#[verifier::external_body]
fn luma8_raw(width: u32, height: u32, rgba: Vec<u8>) -> (gray: Vec<u8>)
    requires
        rgba@.len() == 4 * (width as int) * (height as int),
    ensures
        gray@.len() == (width as int) * (height as int),
{
    let buf = image::RgbaImage::from_raw(width, height, rgba).expect("buffer holds the pixels");
    image::DynamicImage::ImageRgba8(buf).to_luma8().into_raw()
}

/// Calls `image::imageops::resize` with `FilterType::Lanczos3` on the gray
/// image made of `gray`. Claimed: the result has the new size, one byte per
/// pixel. Its values are left unsaid: the Lanczos3 kernel computes `f32`
/// sines, whose precision std leaves to the platform, so the bytes are not a
/// fixed function of the arguments.
#[verifier::external_body]
fn resize_lanczos3_raw(width: u32, height: u32, gray: Vec<u8>, new_width: u32, new_height: u32) -> (r:
    Vec<u8>)
    requires
        gray@.len() == (width as int) * (height as int),
    ensures
        r@.len() == (new_width as int) * (new_height as int),
{
    let img = image::GrayImage::from_raw(width, height, gray).expect("buffer holds the pixels");
    image::imageops::resize(&img, new_width, new_height, image::imageops::FilterType::Lanczos3).into_raw()
}

/// The threshold window used for OCR (fits digits about 20 px tall at 300 DPI,
/// scaled two times).
pub const OCR_WINDOW: u32 = 31;

/// The threshold offset used for OCR.
pub const OCR_OFFSET: i32 = 10;

/// `r` is the OCR threshold (half window 15, offset 10) of the `w`×`h` gray
/// image whose row-major bytes are `scaled`.
pub open spec fn is_ocr_threshold_of(r: GrayImage, scaled: Seq<u8>, w: u32, h: u32) -> bool {
    &&& r.wf()
    &&& r.width == w
    &&& r.height == h
    &&& forall|x: int, y: int|
        0 <= x < w && 0 <= y < h ==> #[trigger] r.at(x, y) == threshold_value(
            split_rows(scaled, w as int, h as int),
            w as int,
            h as int,
            x,
            y,
            15,
            10,
        )
}

/// Threshold the upscaled gray region (`w`×`h`, row-major bytes `scaled`) for
/// the OCR engine: adaptive threshold with window 31 and offset 10.
pub fn threshold_upscaled(w: u32, h: u32, scaled: &Vec<u8>) -> (r: GrayImage)
    requires
        scaled@.len() == (w as int) * (h as int),
        (w as int) * (h as int) * 255 <= u64::MAX,
    ensures
        is_ocr_threshold_of(r, scaled@, w, h),
{
    let rows = rows_of_flat(w, h, scaled);
    let big = GrayImage { width: w, height: h, rows };
    adaptive_threshold(&big, OCR_WINDOW, OCR_OFFSET)
}

/// Preprocess the region of interest for the OCR engine:
///   1. convert to grayscale,
///   2. scale up two times (Lanczos3),
///   3. adaptive threshold (window 31, offset 10) to a black-on-white image.
/// The gray and scaled values come from the image crate; whatever they are,
/// the result is twice the size of the region, black and white only, and the
/// OCR threshold of a gray image of that size.
pub fn preprocess_for_ocr(roi: &RgbaImage) -> (r: GrayImage)
    requires
        roi.wf(),
        2 * (roi.width as int) <= u32::MAX,
        2 * (roi.height as int) <= u32::MAX,
        (2 * (roi.width as int)) * (2 * (roi.height as int)) * 255 <= u64::MAX,
    ensures
        r.wf(),
        r.width == 2 * roi.width,
        r.height == 2 * roi.height,
        forall|x: int, y: int|
            0 <= x < r.width && 0 <= y < r.height ==> #[trigger] r.at(x, y) == 0 || r.at(x, y)
                == 255,
        exists|scaled: Seq<u8>|
            scaled.len() == (r.width as int) * (r.height as int) && #[trigger] is_ocr_threshold_of(
                r,
                scaled,
                r.width,
                r.height,
            ),
{
    let w = roi.width;
    let h = roi.height;
    let flat = flatten_rows(&roi.rows);
    proof {
        lemma_concat_rows_len(roi.rows.deep_view(), 4 * (w as int));
        assert((h as int) * (4 * (w as int)) == 4 * (w as int) * (h as int)) by (nonlinear_arith);
    }
    let gray = luma8_raw(w, h, flat);
    let scaled = resize_lanczos3_raw(w, h, gray, 2 * w, 2 * h);
    let r = threshold_upscaled(2 * w, 2 * h, &scaled);
    assert(is_ocr_threshold_of(r, scaled@, r.width, r.height));
    r
}

/// The bytes that `image::codecs::png::PngEncoder::write_image` writes for an
/// 8-bit gray image of the given size with these row-major bytes, or `None`
/// where encoding fails.
pub uninterp spec fn png_of_gray(gray: Seq<u8>, width: u32, height: u32) -> Option<Seq<u8>>;

/// Encodes the gray image made of `gray` as PNG into memory with
/// `PngEncoder::write_image` (color type `L8`). Claimed: the outcome is the
/// named `png_of_gray` of the arguments; the error's message is left unsaid.
#[verifier::external_body]
fn png_raw(width: u32, height: u32, gray: &Vec<u8>) -> (r: Result<Vec<u8>, String>)
    requires
        gray@.len() == (width as int) * (height as int),
    ensures
        match r {
            Ok(bytes) => png_of_gray(gray@, width, height) == Some(bytes@),
            Err(_) => png_of_gray(gray@, width, height) is None,
        },
{
    let mut out = std::io::Cursor::new(Vec::new());
    match image::codecs::png::PngEncoder::new(&mut out).write_image(
        gray.as_slice(),
        width,
        height,
        image::ExtendedColorType::L8,
    ) {
        Ok(()) => Ok(out.into_inner()),
        Err(e) => Err(e.to_string()),
    }
}

/// The PNG encoding of a gray image.
pub open spec fn gray_png(img: GrayImage) -> Option<Seq<u8>> {
    png_of_gray(concat_rows(img.rows.deep_view()), img.width, img.height)
}

/// Encode the preprocessed region as PNG for the OCR engine, which reads an
/// encoded image rather than raw pixels. A failure is an OCR processing error
/// whose message starts with `PNG encode for OCR: `.
pub fn encode_png_gray(img: &GrayImage) -> (r: Result<Vec<u8>, ProcessorError>)
    requires
        img.wf(),
    ensures
        match r {
            Ok(bytes) => gray_png(*img) == Some(bytes@),
            Err(e) => gray_png(*img) is None && (e matches ProcessorError::OcrProcessError(m)
                && m@.take(20) == "PNG encode for OCR: "@),
        },
{
    let flat = flatten_rows(&img.rows);
    proof {
        lemma_concat_rows_len(img.rows.deep_view(), img.width as int);
        assert((img.height as int) * (img.width as int) == (img.width as int) * (img.height as int))
            by (nonlinear_arith);
    }
    match png_raw(img.width, img.height, &flat) {
        Ok(bytes) => Ok(bytes),
        Err(msg) => {
            proof {
                reveal_strlit("PNG encode for OCR: ");
            }
            let mut m = String::from_str("PNG encode for OCR: ");
            let ghost prefix = m@;
            m.append(msg.as_str());
            assert(m@.take(20) =~= prefix);
            Err(ProcessorError::OcrProcessError(m))
        },
    }
}

/// Regular expression of a student application number: 4–12 digits standing
/// as a word of their own, captured as group 1.
pub fn student_no_pattern() -> (p: &'static str)
    ensures
        p@ == student_no_pattern_spec(),
        p@ == "\\b(\\d{4,12})\\b"@,
{
    "\\b(\\d{4,12})\\b"
}

/// The text of the application number pattern.
pub open spec fn student_no_pattern_spec() -> Seq<char> {
    "\\b(\\d{4,12})\\b"@
}

/// The texts of capture group 1 of every match, left to right, that the
/// `regex` crate finds for `pattern` in `text`; `None` when `pattern` is not
/// a valid regular expression.
pub uninterp spec fn regex_group_one_matches(pattern: Seq<char>, text: Seq<char>) -> Option<
    Seq<Seq<char>>,
>;

/// Calls `regex::Regex::new` on `pattern`, then `Regex::captures_iter` on
/// `text`, and hands back the text of capture group 1 of each match in order.
/// Claimed: the outcome is the named `regex_group_one_matches` of the
/// arguments; an invalid pattern gives the crate's error message. Claimed
/// too, from the crate's documented syntax (`\b` holds at the start and end
/// of the text next to a word character, `\d` matches ASCII digits,
/// repetition is greedy, `captures_iter` finds successive non-overlapping
/// matches): for the pattern `\b(\d{4,12})\b`, a text that is one run of 4
/// to 12 ASCII digits has exactly one match, the whole text, as group 1.
#[verifier::external_body]
fn capture_group_one(pattern: &str, text: &str) -> (r: Result<Vec<String>, String>)
    ensures
        match r {
            Ok(v) => regex_group_one_matches(pattern@, text@) == Some(v.deep_view()) && (pattern@
                == "\\b(\\d{4,12})\\b"@ && is_digit_run(text@) ==> v.deep_view() == seq![text@]),
            Err(_) => regex_group_one_matches(pattern@, text@) is None && !(pattern@
                == "\\b(\\d{4,12})\\b"@ && is_digit_run(text@)),
        },
{
    match regex::Regex::new(pattern) {
        Ok(re) => Ok(
            re.captures_iter(text).filter_map(|c| c.get(1)).map(|m| m.as_str().to_string()).collect(),
        ),
        Err(e) => Err(e.to_string()),
    }
}

/// A text that is one run of 4 to 12 ASCII digits and nothing else.
pub open spec fn is_digit_run(text: Seq<char>) -> bool {
    4 <= text.len() <= 12 && forall|i: int| 0 <= i < text.len() ==> '0' <= #[trigger] text[i] <= '9'
}

/// Length in bytes of a text (what `str::len` counts).
pub open spec fn byte_len(s: Seq<char>) -> nat {
    encode_utf8(s).len()
}

/// The candidate that `Iterator::max_by_key` picks by byte length: the longest,
/// and among equally long ones the last.
pub open spec fn longest_index(c: Seq<Seq<char>>) -> int
    decreases c.len(),
{
    if c.len() <= 1 {
        0
    } else {
        let p = longest_index(c.drop_last());
        if byte_len(c.last()) >= byte_len(c[p]) {
            c.len() - 1
        } else {
            p
        }
    }
}

/// What choosing the application number from the candidates gives: no
/// candidate is an error that carries the OCR text, otherwise the longest
/// candidate (the last of the longest).
pub open spec fn selection_outcome(
    text: Seq<char>,
    candidates: Seq<Seq<char>>,
    r: Result<String, ProcessorError>,
) -> bool {
    if candidates.len() == 0 {
        r matches Err(ProcessorError::ApplicationNumberNotFound { ocr_text }) && ocr_text@ == text
    } else {
        r matches Ok(s) && s@ == candidates[longest_index(candidates)]
    }
}

/// Pick the application number among the pattern matches of the OCR text.
pub fn select_application_number(text: &str, candidates: &Vec<String>) -> (r: Result<
    String,
    ProcessorError,
>)
    ensures
        selection_outcome(text@, candidates.deep_view(), r),
{
    let n = candidates.len();
    if n == 0 {
        return Err(ProcessorError::ApplicationNumberNotFound { ocr_text: String::from_str(text) });
    }
    let ghost c = candidates.deep_view();
    let mut best: usize = 0;
    let mut best_len: usize = candidates[0].as_str().as_bytes().len();
    let mut i: usize = 1;
    assert(c.take(1).drop_last() =~= c.take(0));
    while i < n
        invariant
            1 <= i <= n == candidates@.len(),
            c == candidates.deep_view(),
            best < i,
            best == longest_index(c.take(i as int)),
            best_len == byte_len(c[best as int]),
        decreases n - i,
    {
        let len = candidates[i].as_str().as_bytes().len();
        assert(c.take(i + 1).drop_last() =~= c.take(i as int));
        assert(c.take(i + 1).last() == c[i as int]);
        assert(c.take(i as int)[best as int] == c[best as int]);
        if len >= best_len {
            best = i;
            best_len = len;
        }
        i += 1;
    }
    assert(c.take(n as int) =~= c);
    Ok(candidates[best].clone())
}

/// From raw OCR text, extract the student application number: the longest
/// run of 4–12 digits standing as a word of its own.
pub fn extract_number_from_text(text: &str) -> (r: Result<String, ProcessorError>)
    ensures
        match regex_group_one_matches(student_no_pattern_spec(), text@) {
            Some(c) => selection_outcome(text@, c, r),
            None => r matches Err(ProcessorError::OcrInitError(_)),
        },
        is_digit_run(text@) ==> (r matches Ok(s) && s@ == text@),
{
    match capture_group_one(student_no_pattern(), text) {
        Ok(candidates) => select_application_number(text, &candidates),
        Err(message) => Err(ProcessorError::OcrInitError(message)),
    }
}

/// The number that is picked is at least as long as every other candidate,
/// and longer than every candidate after it.
pub proof fn lemma_longest_index(c: Seq<Seq<char>>)
    requires
        c.len() > 0,
    ensures
        0 <= longest_index(c) < c.len(),
        forall|j: int| 0 <= j < c.len() ==> byte_len(#[trigger] c[j]) <= byte_len(c[longest_index(c)]),
        forall|j: int| longest_index(c) < j < c.len() ==> byte_len(#[trigger] c[j]) < byte_len(c[longest_index(c)]),
    decreases c.len(),
{
    if c.len() > 1 {
        let d = c.drop_last();
        lemma_longest_index(d);
        assert forall|j: int| 0 <= j < c.len() - 1 implies #[trigger] c[j] == d[j] by {}
    }
}

} // verus!
