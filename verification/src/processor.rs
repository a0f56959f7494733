use image::ImageEncoder;
use vstd::prelude::*;
use vstd::string::StringSliceAdditionalSpecFns;
use vstd::utf8::*;

use crate::config::PageOrderConfig;
use crate::image::{concat_rows, flatten_rows, lemma_concat_rows_len, split_outcome, A3Split, RgbaImage};
use crate::text::str_eq;
use crate::error::ProcessorError;
use crate::utils::{
    counter_segment, counter_slice_ok, file_name_of, lemma_counter_of_scan_name, padded_digits,
    path_file_name,
};

verus! {

broadcast use {vstd::utf8::encode_utf8_decode_utf8, vstd::utf8::encode_utf8_valid_utf8};

/// The result of processing one pair of scan files.
#[derive(Debug)]
pub struct ProcessResult {
    pub output_path: String,
    pub student_number: String,
    pub file_a: String,
    pub file_b: String,
}

/// One of the four A4 halves of a pair of A3 scans.
#[derive(Debug, Clone, Copy, PartialEq, Eq, Structural)]
pub enum PageSlot {
    /// Right half of the outer sheet (lower counter).
    ARight,
    /// Left half of the outer sheet.
    ALeft,
    /// Right half of the inner sheet (higher counter).
    BRight,
    /// Left half of the inner sheet.
    BLeft,
}

/// The slot a page order entry names, if it names one.
pub open spec fn slot_of_name(name: Seq<char>) -> Option<PageSlot> {
    if name == "A_right"@ {
        Some(PageSlot::ARight)
    } else if name == "A_left"@ {
        Some(PageSlot::ALeft)
    } else if name == "B_right"@ {
        Some(PageSlot::BRight)
    } else if name == "B_left"@ {
        Some(PageSlot::BLeft)
    } else {
        None
    }
}

/// The slot a page order entry stands for: the one it names, and the right
/// half of the outer sheet for an unknown name.
pub open spec fn resolved_slot(name: Seq<char>) -> PageSlot {
    match slot_of_name(name) {
        Some(s) => s,
        None => PageSlot::ARight,
    }
}

/// The slot a page order entry names, or `None` for an unknown name.
pub fn page_slot(name: &str) -> (r: Option<PageSlot>)
    ensures
        r == slot_of_name(name@),
{
    if str_eq(name, "A_right") {
        Some(PageSlot::ARight)
    } else if str_eq(name, "A_left") {
        Some(PageSlot::ALeft)
    } else if str_eq(name, "B_right") {
        Some(PageSlot::BRight)
    } else if str_eq(name, "B_left") {
        Some(PageSlot::BLeft)
    } else {
        None
    }
}

/// The slot a page order entry stands for; unknown names fall back to the
/// right half of the outer sheet.
pub fn resolve_slot(name: &str) -> (r: PageSlot)
    ensures
        r == resolved_slot(name@),
{
    match page_slot(name) {
        Some(s) => s,
        None => PageSlot::ARight,
    }
}

/// The slots of output pages 1 to 4.
pub fn resolve_page_order(order: &PageOrderConfig) -> (r: Vec<PageSlot>)
    ensures
        r@ == seq![
            resolved_slot(order.page1@),
            resolved_slot(order.page2@),
            resolved_slot(order.page3@),
            resolved_slot(order.page4@),
        ],
{
    let mut r: Vec<PageSlot> = Vec::new();
    r.push(resolve_slot(order.page1.as_str()));
    r.push(resolve_slot(order.page2.as_str()));
    r.push(resolve_slot(order.page3.as_str()));
    r.push(resolve_slot(order.page4.as_str()));
    r
}

/// The half of scan A (outer sheet) or scan B (inner sheet) that a slot names.
pub open spec fn slot_page(slot: PageSlot, a: A3Split, b: A3Split) -> RgbaImage {
    match slot {
        PageSlot::ARight => a.right,
        PageSlot::ALeft => a.left,
        PageSlot::BRight => b.right,
        PageSlot::BLeft => b.left,
    }
}

/// The half that a slot names.
pub fn select_page<'a>(slot: PageSlot, a: &'a A3Split, b: &'a A3Split) -> (r: &'a RgbaImage)
    ensures
        *r == slot_page(slot, *a, *b),
        slot == PageSlot::ARight ==> *r == a.right,
        slot == PageSlot::ALeft ==> *r == a.left,
        slot == PageSlot::BRight ==> *r == b.right,
        slot == PageSlot::BLeft ==> *r == b.left,
{
    match slot {
        PageSlot::ARight => &a.right,
        PageSlot::ALeft => &a.left,
        PageSlot::BRight => &b.right,
        PageSlot::BLeft => &b.left,
    }
}

/// The part of a file name kept in the fallback name: bytes `3..9` (the
/// counter) when the name has nine bytes or more and they can be cut out,
/// else the whole name.
pub open spec fn fallback_base(name: Seq<char>) -> Seq<char> {
    if encode_utf8(name).len() >= 9 && counter_slice_ok(name) {
        counter_segment(name)
    } else {
        name
    }
}

/// The name used when OCR fails: `UNKNOWN_` followed by the kept part of the
/// file name.
pub open spec fn fallback_of_name(name: Seq<char>) -> Seq<char> {
    "UNKNOWN_"@ + fallback_base(name)
}

/// The output name used when OCR fails for a pair whose first scan has path
/// `path`: from its file name, or from `unknown` when it has none.
pub open spec fn fallback_of_path(path: Seq<char>) -> Seq<char> {
    match path_file_name(path) {
        Some(name) => fallback_of_name(name),
        None => fallback_of_name("unknown"@),
    }
}

/// The fallback of a file name.
pub fn fallback_from_name(name: &str) -> (r: String)
    ensures
        r@ == fallback_of_name(name@),
{
    proof {
        reveal_strlit("UNKNOWN_");
    }
    let mut r = String::from_str("UNKNOWN_");
    let len = name.as_bytes().len();
    assert(len as nat == encode_utf8(name@).len());
    if len >= 9 && name.is_char_boundary(3) && name.is_char_boundary(9) {
        let ghost b = name.spec_bytes();
        let (_, rest) = name.split_at(3);
        proof {
            crate::utils::lemma_boundary_after_split(b, 3, 9);
        }
        let (segment, _) = rest.split_at(6);
        proof {
            assert(segment.spec_bytes() =~= b.subrange(3, 9));
            assert(segment@ == decode_utf8(encode_utf8(segment@)));
        }
        r.append(segment);
    } else {
        r.append(name);
    }
    r
}

/// The name to give the output when OCR fails: `UNKNOWN_` and the counter part
/// of the first scan's file name, so that the document is never lost.
pub fn fallback_filename(path: &str) -> (r: String)
    ensures
        r@ == fallback_of_path(path@),
        r@.len() > 0,
{
    proof {
        reveal_strlit("UNKNOWN_");
    }
    match file_name_of(path) {
        Some(name) => fallback_from_name(name.as_str()),
        None => fallback_from_name("unknown"),
    }
}

/// The student number a pair is filed under: the number OCR read, or the
/// fallback name of the first scan when OCR failed.
pub fn choose_student_number(ocr: Result<String, ProcessorError>, file_a: &str) -> (r: String)
    ensures
        r@ == match ocr {
            Ok(n) => n@,
            Err(_) => fallback_of_path(file_a@),
        },
{
    match ocr {
        Ok(n) => n,
        Err(_) => fallback_filename(file_a),
    }
}

/// File name of the output PDF: `{student_number}.pdf`.
pub fn pdf_file_name(student_number: &str) -> (r: String)
    ensures
        r@ == student_number@ + ".pdf"@,
{
    let mut r = String::from_str(student_number);
    r.append(".pdf");
    r
}

/// File name of the saved region-of-interest image: `{student_number}.png`.
pub fn png_file_name(student_number: &str) -> (r: String)
    ensures
        r@ == student_number@ + ".png"@,
{
    let mut r = String::from_str(student_number);
    r.append(".png");
    r
}

/// The RGB copy of row-major RGBA bytes: every fourth (alpha) byte dropped.
pub open spec fn rgb_of_rgba(rgba: Seq<u8>) -> Seq<u8> {
    Seq::new((rgba.len() / 4 * 3) as nat, |i: int| rgba[(i / 3) * 4 + i % 3])
}

/// The RGB copy keeps each pixel's red, green and blue bytes, in that order,
/// and drops only the alpha byte: three bytes out for every four in.
pub proof fn lemma_rgb_keeps_channel_order(rgba: Seq<u8>)
    requires
        rgba.len() % 4 == 0,
    ensures
        rgb_of_rgba(rgba).len() * 4 == rgba.len() * 3,
        forall|p: int|
            0 <= p < rgba.len() / 4 ==> #[trigger] rgb_of_rgba(rgba)[3 * p] == rgba[4 * p]
                && rgb_of_rgba(rgba)[3 * p + 1] == rgba[4 * p + 1] && rgb_of_rgba(rgba)[3 * p + 2]
                == rgba[4 * p + 2],
{
    let r = rgb_of_rgba(rgba);
    assert forall|p: int| 0 <= p < rgba.len() / 4 implies #[trigger] r[3 * p] == rgba[4 * p]
        && r[3 * p + 1] == rgba[4 * p + 1] && r[3 * p + 2] == rgba[4 * p + 2] by {
        assert((3 * p) / 3 == p && (3 * p) % 3 == 0);
        assert((3 * p + 1) / 3 == p && (3 * p + 1) % 3 == 1);
        assert((3 * p + 2) / 3 == p && (3 * p + 2) % 3 == 2);
    }
}

/// The RGB copy of row-major RGBA bytes, as `image::DynamicImage::to_rgb8`
/// makes it for 8-bit RGBA (channel by channel, the alpha byte dropped).
pub fn rgb_bytes(rgba: &Vec<u8>) -> (rgb: Vec<u8>)
    requires
        rgba@.len() % 4 == 0,
    ensures
        rgb@ == rgb_of_rgba(rgba@),
        rgb@.len() * 4 == rgba@.len() * 3,
        forall|p: int|
            0 <= p < rgba@.len() / 4 ==> #[trigger] rgb@[3 * p] == rgba@[4 * p] && rgb@[3 * p + 1]
                == rgba@[4 * p + 1] && rgb@[3 * p + 2] == rgba@[4 * p + 2],
{
    proof {
        lemma_rgb_keeps_channel_order(rgba@);
    }
    let n = rgba.len() / 4;
    assert(rgba@.len() == 4 * n);
    let mut rgb: Vec<u8> = Vec::new();
    let mut p: usize = 0;
    while p < n
        invariant
            n == rgba@.len() / 4,
            rgba@.len() == 4 * n,
            rgba@.len() <= usize::MAX,
            p <= n,
            rgb@.len() == 3 * p,
            forall|j: int| 0 <= j < 3 * p ==> #[trigger] rgb@[j] == rgba@[(j / 3) * 4 + j % 3],
        decreases n - p,
    {
        let ghost before = rgb@;
        rgb.push(rgba[4 * p]);
        rgb.push(rgba[4 * p + 1]);
        rgb.push(rgba[4 * p + 2]);
        proof {
            assert forall|j: int| 0 <= j < 3 * (p + 1) implies #[trigger] rgb@[j] == rgba@[(j / 3)
                * 4 + j % 3] by {
                if j < 3 * p {
                    assert(rgb@[j] == before[j]);
                } else {
                    assert(j / 3 == p && j % 3 == j - 3 * p);
                }
            }
        }
        p += 1;
    }
    assert(rgb@ =~= rgb_of_rgba(rgba@));
    rgb
}

/// The bytes that `image::codecs::jpeg::JpegEncoder::new_with_quality` and
/// `encode_image` write for an RGB image of the given size, or `None` where
/// encoding fails.
pub uninterp spec fn jpeg_of_rgb(rgb: Seq<u8>, width: u32, height: u32, quality: u8) -> Option<
    Seq<u8>,
>;

/// Encodes the RGB image made of `rgb` with
/// `JpegEncoder::new_with_quality(.., quality).encode_image` into memory.
/// Claimed: the outcome is the named `jpeg_of_rgb` of the arguments, and (as
/// the encoder's size check shows) a width or height outside 1..=65535 is an
/// error; the error's message is left unsaid.
#[verifier::external_body]
fn jpeg_raw(width: u32, height: u32, rgb: Vec<u8>, quality: u8) -> (r: Result<Vec<u8>, String>)
    requires
        rgb@.len() == 3 * (width as int) * (height as int),
    ensures
        match r {
            Ok(bytes) => jpeg_of_rgb(rgb@, width, height, quality) == Some(bytes@),
            Err(_) => jpeg_of_rgb(rgb@, width, height, quality) is None,
        },
        !(1 <= width <= 65535 && 1 <= height <= 65535) ==> r is Err,
{
    let img = image::RgbImage::from_raw(width, height, rgb).expect("buffer holds the pixels");
    let mut out = std::io::Cursor::new(Vec::new());
    match image::codecs::jpeg::JpegEncoder::new_with_quality(&mut out, quality).encode_image(&img) {
        Ok(()) => Ok(out.into_inner()),
        Err(e) => Err(e.to_string()),
    }
}

/// The JPEG encoding of a page: its RGB copy, encoded with the given quality.
pub open spec fn page_jpeg(img: RgbaImage, quality: u8) -> Option<Seq<u8>> {
    jpeg_of_rgb(
        rgb_of_rgba(concat_rows(img.rows.deep_view())),
        img.width,
        img.height,
        quality,
    )
}

/// Encode a page image as JPEG bytes with the given quality (1–100; other
/// values are clamped by the encoder).
pub fn encode_jpeg(img: &RgbaImage, quality: u8) -> (r: Result<Vec<u8>, String>)
    requires
        img.wf(),
    ensures
        match r {
            Ok(bytes) => page_jpeg(*img, quality) == Some(bytes@),
            Err(_) => page_jpeg(*img, quality) is None,
        },
        !(1 <= img.width <= 65535 && 1 <= img.height <= 65535) ==> r is Err,
{
    let flat = flatten_rows(&img.rows);
    proof {
        lemma_concat_rows_len(img.rows.deep_view(), 4 * (img.width as int));
        assert((img.height as int) * (4 * (img.width as int)) == 4 * (img.width as int) * (
        img.height as int)) by (nonlinear_arith);
    }
    proof {
        let m = (img.width as int) * (img.height as int);
        assert(4 * (img.width as int) * (img.height as int) == 4 * m) by (nonlinear_arith)
            requires
                m == (img.width as int) * (img.height as int),
        ;
        assert(3 * (img.width as int) * (img.height as int) == 3 * m) by (nonlinear_arith)
            requires
                m == (img.width as int) * (img.height as int),
        ;
        assert(flat@.len() == 4 * m);
        assert(flat@.len() % 4 == 0 && flat@.len() / 4 * 3 == 3 * m);
    }
    let rgb = rgb_bytes(&flat);
    jpeg_raw(img.width, img.height, rgb, quality)
}

/// The page a slot names is the matching half of the matching scan: for the
/// outer scan `img_a` (split into `a`) and the inner scan `img_b` (split into
/// `b`), each row of a `*_right` page is the right part of the scan's row,
/// from the middle column on, and each row of a `*_left` page the part before
/// the middle.
pub proof fn lemma_slot_pages_are_scan_halves(img_a: RgbaImage, img_b: RgbaImage, a: A3Split, b: A3Split)
    requires
        img_a.wf(),
        img_b.wf(),
        split_outcome(img_a, Ok(a)),
        split_outcome(img_b, Ok(b)),
    ensures
        forall|y: int|
            0 <= y < img_a.height ==> #[trigger] slot_page(PageSlot::ARight, a, b).row(y)
                == img_a.row(y).subrange(4 * (img_a.width / 2), 4 * img_a.width)
                && slot_page(PageSlot::ALeft, a, b).row(y) == img_a.row(y).subrange(
                0,
                4 * (img_a.width / 2),
            ),
        forall|y: int|
            0 <= y < img_b.height ==> #[trigger] slot_page(PageSlot::BRight, a, b).row(y)
                == img_b.row(y).subrange(4 * (img_b.width / 2), 4 * img_b.width)
                && slot_page(PageSlot::BLeft, a, b).row(y) == img_b.row(y).subrange(
                0,
                4 * (img_b.width / 2),
            ),
        slot_page(PageSlot::ARight, a, b).width == img_a.width - img_a.width / 2,
        slot_page(PageSlot::ALeft, a, b).width == img_a.width / 2,
        slot_page(PageSlot::BRight, a, b).width == img_b.width - img_b.width / 2,
        slot_page(PageSlot::BLeft, a, b).width == img_b.width / 2,
{
}

/// When OCR fails, the output of a scan in the scanner's format
/// `doc{NNNNNN}{rest}` is named `UNKNOWN_NNNNNN` after its zero-padded counter,
/// so no document is lost; any name whose bytes `3..9` can be cut out gives
/// `UNKNOWN_` and its counter segment, and every fallback name is non-empty.
pub proof fn lemma_fallback_is_counter(n: nat, rest: Seq<char>)
    requires
        n < 1000000,
    ensures
        fallback_of_name("doc"@ + padded_digits(n, 6) + rest) == "UNKNOWN_"@ + padded_digits(n, 6),
        forall|name: Seq<char>|
            encode_utf8(name).len() >= 9 && counter_slice_ok(name) ==> #[trigger] fallback_of_name(
                name,
            ) == "UNKNOWN_"@ + counter_segment(name),
        forall|name: Seq<char>| #[trigger] fallback_of_name(name).len() > 0,
{
    reveal_strlit("UNKNOWN_");
    lemma_counter_of_scan_name(n, rest);
}

} // verus!
