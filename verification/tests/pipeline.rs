use scanner_processor::config::{
    default_a_left, default_a_right, default_b_left, default_b_right, default_jpeg_quality,
    PageOrderConfig,
};
use scanner_processor::image::{split_vertical, RgbaImage};
use scanner_processor::processor::{
    choose_student_number, encode_jpeg, fallback_filename, page_slot, pdf_file_name,
    png_file_name, resolve_page_order, resolve_slot, select_page, PageSlot, ProcessResult,
};
use scanner_processor::error::ProcessorError;

fn solid(width: u32, height: u32, v: u8) -> RgbaImage {
    RgbaImage { width, height, rows: vec![vec![v; 4 * width as usize]; height as usize] }
}

#[test]
fn default_page_order_is_the_booklet_order() {
    let order = PageOrderConfig::default();
    assert_eq!(order.page1, "A_right");
    assert_eq!(order.page2, "B_right");
    assert_eq!(order.page3, "B_left");
    assert_eq!(order.page4, "A_left");
    assert_eq!(default_a_right(), "A_right");
    assert_eq!(default_b_right(), "B_right");
    assert_eq!(default_b_left(), "B_left");
    assert_eq!(default_a_left(), "A_left");
    assert_eq!(default_jpeg_quality(), 70);
    assert_eq!(
        resolve_page_order(&order),
        vec![PageSlot::ARight, PageSlot::BRight, PageSlot::BLeft, PageSlot::ALeft]
    );
}

#[test]
fn unknown_slot_falls_back_to_outer_right() {
    assert_eq!(page_slot("B_left"), Some(PageSlot::BLeft));
    assert_eq!(page_slot("b_left"), None);
    assert_eq!(resolve_slot("middle"), PageSlot::ARight);
    assert_eq!(resolve_slot("A_left"), PageSlot::ALeft);
}

#[test]
fn selected_page_is_the_named_half() {
    let a = split_vertical(solid(4, 1, 1)).unwrap();
    let b = split_vertical(solid(4, 1, 2)).unwrap();
    assert_eq!(select_page(PageSlot::BRight, &a, &b).rows[0][0], 2);
    assert_eq!(select_page(PageSlot::ALeft, &a, &b).rows[0][0], 1);
}

#[test]
fn fallback_is_the_counter_segment() {
    assert_eq!(fallback_filename("doc00488320260310093843.pdf"), "UNKNOWN_004883");
    assert_eq!(fallback_filename("/in/doc00488320260310093843.pdf"), "UNKNOWN_004883");
    assert_eq!(fallback_filename("/in/doc1.pdf"), "UNKNOWN_doc1.pdf");
    assert_eq!(fallback_filename("/"), "UNKNOWN_unknown");
}

#[test]
fn fallback_of_a_name_cut_inside_a_character_keeps_the_whole_name() {
    // 'é' takes two bytes, so byte 3 falls inside it
    assert_eq!(fallback_filename("doé00488320260310093843.pdf"), "UNKNOWN_doé00488320260310093843.pdf");
    assert_eq!(fallback_filename("doé004883x.pdf"), "UNKNOWN_doé004883x.pdf");
}

#[test]
fn student_number_is_the_ocr_result_or_the_fallback() {
    assert_eq!(choose_student_number(Ok("21143".to_string()), "/in/doc00488320260310093843.pdf"), "21143");
    let failed = Err(ProcessorError::ApplicationNumberNotFound { ocr_text: "NO.".to_string() });
    assert_eq!(choose_student_number(failed, "/in/doc00488320260310093843.pdf"), "UNKNOWN_004883");
}

#[test]
fn output_file_names() {
    assert_eq!(pdf_file_name("21143"), "21143.pdf");
    assert_eq!(png_file_name("21143"), "21143.png");
}

#[test]
fn jpeg_encoding_of_a_page() {
    let bytes = encode_jpeg(&solid(8, 8, 128), 70).unwrap();
    assert_eq!(&bytes[..2], &[0xFF, 0xD8]);
    assert_ne!(bytes.len(), 8 * 8 * 4);
    assert!(encode_jpeg(&solid(0, 8, 128), 70).is_err());
}

#[test]
fn process_result_holds_its_fields() {
    let r = ProcessResult {
        output_path: "out/21143.pdf".to_string(),
        student_number: "21143".to_string(),
        file_a: "a.pdf".to_string(),
        file_b: "b.pdf".to_string(),
    };
    assert_eq!(r.student_number, "21143");
}
